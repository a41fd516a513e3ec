//! What index streams say, part by part.
use vstd::prelude::*;

verus! {

use crate::index::{index_of, tables_of, units_at, Index, IndexError};
use crate::wire::{i16_rows, i16_stream, i16s, u32_at, u32_byte, u32_rows, u32_stream, u32s};

/// Rows of fourteen numbers, one after the other.
pub open spec fn in_line<T>(rows: Seq<Seq<T>>) -> Seq<T> {
    Seq::new(14 * rows.len(), |i: int| rows[i / 14][i % 14])
}

/// Numbers of four bytes are written with the lowest byte first, those of two bytes too,
/// negative ones in two's complement.
pub proof fn law_lowest_byte_first(v: u32, w: i16)
    ensures
        u32_stream(seq![v]).len() == 4,
        u32_stream(seq![v])[0] + 0x100 * u32_stream(seq![v])[1] + 0x1_0000 * u32_stream(
            seq![v],
        )[2] + 0x100_0000 * u32_stream(seq![v])[3] == v,
        i16_stream(seq![w]).len() == 2,
        ({
            let u = i16_stream(seq![w])[0] + 0x100 * i16_stream(seq![w])[1];
            u == w || u == w + 0x1_0000
        }),
{
    assert(u32_stream(seq![v])[0] == u32_byte(v, 0));
    assert(u32_stream(seq![v])[1] == u32_byte(v, 1));
    assert(u32_stream(seq![v])[2] == u32_byte(v, 2));
    assert(u32_stream(seq![v])[3] == u32_byte(v, 3));
}

proof fn lemma_u32_rows(data: Seq<u8>, p: int, rows: Seq<Seq<u32>>)
    requires
        forall|c: int| 0 <= c < rows.len() ==> (#[trigger] rows[c]).len() == 14,
        u32s(data, p, 14 * rows.len()) == in_line(rows),
    ensures
        u32_rows(data, p, rows.len()) == rows,
{
    let k = rows.len();
    assert forall|i: int| 0 <= i < k implies #[trigger] u32_rows(data, p, k)[i] == rows[i] by {
        assert(rows[i].len() == 14);
        assert forall|j: int| 0 <= j < 14 implies u32_rows(data, p, k)[i][j] == rows[i][j] by {
            assert(u32s(data, p, 14 * k)[14 * i + j] == in_line(rows)[14 * i + j]);
            assert((14 * i + j) / 14 == i && (14 * i + j) % 14 == j);
        }
        assert(u32_rows(data, p, k)[i] =~= rows[i]);
    }
    assert(u32_rows(data, p, k) =~= rows);
}

proof fn lemma_i16_rows(data: Seq<u8>, p: int, rows: Seq<Seq<i16>>)
    requires
        forall|c: int| 0 <= c < rows.len() ==> (#[trigger] rows[c]).len() == 14,
        i16s(data, p, 14 * rows.len()) == in_line(rows),
    ensures
        i16_rows(data, p, rows.len()) == rows,
{
    let k = rows.len();
    assert forall|i: int| 0 <= i < k implies #[trigger] i16_rows(data, p, k)[i] == rows[i] by {
        assert(rows[i].len() == 14);
        assert forall|j: int| 0 <= j < 14 implies i16_rows(data, p, k)[i][j] == rows[i][j] by {
            assert(i16s(data, p, 14 * k)[14 * i + j] == in_line(rows)[14 * i + j]);
            assert((14 * i + j) / 14 == i && (14 * i + j) % 14 == j);
        }
        assert(i16_rows(data, p, k)[i] =~= rows[i]);
    }
    assert(i16_rows(data, p, k) =~= rows);
}

/// The fields of a header.
pub open spec fn header_of(version: u32, n: nat, k: nat, scale: u32, a: u32, b: u32) -> Seq<u32> {
    seq![0x4656_4952u32, version, n as u32, 14, k as u32, scale, a, b]
}

proof fn lemma_fields(data: Seq<u8>, version: u32, n: nat, k: nat, scale: u32, a: u32, b: u32)
    requires
        data.len() >= 32,
        n <= u32::MAX,
        k <= u32::MAX,
        data.subrange(0, 32) == u32_stream(header_of(version, n, k, scale, a, b)),
    ensures
        u32_at(data, 0) == 0x4656_4952,
        u32_at(data, 4) == version,
        u32_at(data, 8) == n,
        u32_at(data, 12) == 14,
        u32_at(data, 16) == k,
        u32_at(data, 20) == scale,
{
    let fields = header_of(version, n, k, scale, a, b);
    crate::wire::law_u32s_are_read_back(data, 0, fields);
    assert(u32s(data, 0, 8)[0] == fields[0]);
    assert(u32s(data, 0, 8)[1] == fields[1]);
    assert(u32s(data, 0, 8)[2] == fields[2]);
    assert(u32s(data, 0, 8)[3] == fields[3]);
    assert(u32s(data, 0, 8)[4] == fields[4]);
    assert(u32s(data, 0, 8)[5] == fields[5]);
}

/// Whether the tables of an index agree with each other: a row of fourteen components for
/// each centroid, a size for each cluster, offsets from the first cluster to the end, and as
/// many labels and components as the last offsets say.
pub open spec fn tables_agree(x: Index) -> bool {
    let k = x.centroids.len();
    &&& 0 < k <= u32::MAX
    &&& forall|c: int| 0 <= c < k ==> (#[trigger] x.centroids[c]).len() == 14
    &&& x.sizes.len() == k
    &&& x.offsets.len() == k + 1
    &&& x.panels.len() == k + 1
    &&& x.offsets[k as int] == x.labels.len()
    &&& x.panels[k as int] == x.units.len()
    &&& x.labels.len() > 0
}

/// The stream of version 2 of an index: a header, the centroids, the least components of the
/// clusters, the greatest ones, the sizes, the offsets of labels and of vectors, the vectors
/// and the labels.
pub open spec fn stream_with_bounds(x: Index, a: u32, b: u32) -> Seq<u8> {
    u32_stream(header_of(2, x.labels.len(), x.centroids.len(), x.scale, a, b)) + u32_stream(
        in_line(x.centroids),
    ) + i16_stream(in_line(x.mins)) + i16_stream(in_line(x.maxs)) + u32_stream(x.sizes)
        + u32_stream(x.offsets) + u32_stream(x.panels) + i16_stream(x.units) + x.labels
}

/// The stream of version 1 of an index, which has no bounds.
pub open spec fn stream_without_bounds(x: Index, a: u32, b: u32) -> Seq<u8> {
    u32_stream(header_of(1, x.labels.len(), x.centroids.len(), x.scale, a, b)) + u32_stream(
        in_line(x.centroids),
    ) + u32_stream(x.sizes) + u32_stream(x.offsets) + u32_stream(x.panels) + i16_stream(x.units)
        + x.labels
}

/// Where the parts of a stream of nine parts stand.
proof fn lemma_nine_parts(
    p0: Seq<u8>,
    p1: Seq<u8>,
    p2: Seq<u8>,
    p3: Seq<u8>,
    p4: Seq<u8>,
    p5: Seq<u8>,
    p6: Seq<u8>,
    p7: Seq<u8>,
    p8: Seq<u8>,
)
    ensures
        ({
            let data = p0 + p1 + p2 + p3 + p4 + p5 + p6 + p7 + p8;
            let at1 = p0.len() as int;
            let at2 = at1 + p1.len();
            let at3 = at2 + p2.len();
            let at4 = at3 + p3.len();
            let at5 = at4 + p4.len();
            let at6 = at5 + p5.len();
            let at7 = at6 + p6.len();
            let at8 = at7 + p7.len();
            &&& data.len() == at8 + p8.len()
            &&& data.subrange(0, at1) == p0
            &&& data.subrange(at1, at2) == p1
            &&& data.subrange(at2, at3) == p2
            &&& data.subrange(at3, at4) == p3
            &&& data.subrange(at4, at5) == p4
            &&& data.subrange(at5, at6) == p5
            &&& data.subrange(at6, at7) == p6
            &&& data.subrange(at7, at8) == p7
            &&& data.subrange(at8, at8 + p8.len()) == p8
        }),
{
    let none = Seq::<u8>::empty();
    let data = p0 + p1 + p2 + p3 + p4 + p5 + p6 + p7 + p8;
    lemma_next_part(none, p0, p1 + p2 + p3 + p4 + p5 + p6 + p7 + p8);
    assert(data =~= none + p0 + (p1 + p2 + p3 + p4 + p5 + p6 + p7 + p8));
    lemma_next_part(p0, p1, p2 + p3 + p4 + p5 + p6 + p7 + p8);
    assert(data =~= p0 + p1 + (p2 + p3 + p4 + p5 + p6 + p7 + p8));
    lemma_next_part(p0 + p1, p2, p3 + p4 + p5 + p6 + p7 + p8);
    assert(data =~= p0 + p1 + p2 + (p3 + p4 + p5 + p6 + p7 + p8));
    lemma_next_part(p0 + p1 + p2, p3, p4 + p5 + p6 + p7 + p8);
    assert(data =~= p0 + p1 + p2 + p3 + (p4 + p5 + p6 + p7 + p8));
    lemma_next_part(p0 + p1 + p2 + p3, p4, p5 + p6 + p7 + p8);
    assert(data =~= p0 + p1 + p2 + p3 + p4 + (p5 + p6 + p7 + p8));
    lemma_next_part(p0 + p1 + p2 + p3 + p4, p5, p6 + p7 + p8);
    assert(data =~= p0 + p1 + p2 + p3 + p4 + p5 + (p6 + p7 + p8));
    lemma_next_part(p0 + p1 + p2 + p3 + p4 + p5, p6, p7 + p8);
    assert(data =~= p0 + p1 + p2 + p3 + p4 + p5 + p6 + (p7 + p8));
    lemma_next_part(p0 + p1 + p2 + p3 + p4 + p5 + p6, p7, p8);
    lemma_next_part(p0 + p1 + p2 + p3 + p4 + p5 + p6 + p7, p8, none);
    assert(data =~= data + none);
}

proof fn lemma_next_part(before: Seq<u8>, part: Seq<u8>, behind: Seq<u8>)
    ensures
        (before + part + behind).subrange(before.len() as int, (before.len() + part.len()) as int)
            == part,
{
    assert((before + part + behind).subrange(
        before.len() as int,
        (before.len() + part.len()) as int,
    ) =~= part);
}

proof fn lemma_parts_with_bounds(x: Index, a: u32, b: u32)
    requires
        tables_agree(x),
        x.mins.len() == x.centroids.len(),
        x.maxs.len() == x.centroids.len(),
    ensures
        ({
            let data = stream_with_bounds(x, a, b);
            let k = x.centroids.len() as int;
            &&& data.len() == 32 + 112 * k + tail_length(x)
            &&& data.subrange(0, 32) == u32_stream(
                header_of(2, x.labels.len(), x.centroids.len(), x.scale, a, b),
            )
            &&& data.subrange(32, 32 + 56 * k) == u32_stream(in_line(x.centroids))
            &&& data.subrange(32 + 56 * k, 32 + 84 * k) == i16_stream(in_line(x.mins))
            &&& data.subrange(32 + 84 * k, 32 + 112 * k) == i16_stream(in_line(x.maxs))
            &&& tail_stands(data, x, 32 + 112 * k)
        }),
{
    lemma_nine_parts(
        u32_stream(header_of(2, x.labels.len(), x.centroids.len(), x.scale, a, b)),
        u32_stream(in_line(x.centroids)),
        i16_stream(in_line(x.mins)),
        i16_stream(in_line(x.maxs)),
        u32_stream(x.sizes),
        u32_stream(x.offsets),
        u32_stream(x.panels),
        i16_stream(x.units),
        x.labels,
    );
}

proof fn lemma_parts_without_bounds(x: Index, a: u32, b: u32)
    requires
        tables_agree(x),
    ensures
        ({
            let data = stream_without_bounds(x, a, b);
            let k = x.centroids.len() as int;
            &&& data.len() == 32 + 56 * k + tail_length(x)
            &&& data.subrange(0, 32) == u32_stream(
                header_of(1, x.labels.len(), x.centroids.len(), x.scale, a, b),
            )
            &&& data.subrange(32, 32 + 56 * k) == u32_stream(in_line(x.centroids))
            &&& tail_stands(data, x, 32 + 56 * k)
        }),
{
    let none = Seq::<u8>::empty();
    let p0 = u32_stream(header_of(1, x.labels.len(), x.centroids.len(), x.scale, a, b));
    let p1 = u32_stream(in_line(x.centroids));
    lemma_nine_parts(
        p0,
        p1,
        none,
        none,
        u32_stream(x.sizes),
        u32_stream(x.offsets),
        u32_stream(x.panels),
        i16_stream(x.units),
        x.labels,
    );
    assert(p0 + p1 + none + none =~= p0 + p1);
}

/// How many bytes the sizes and what follows them take.
spec fn tail_length(x: Index) -> nat {
    4 * x.sizes.len() + 4 * x.offsets.len() + 4 * x.panels.len() + 2 * x.units.len()
        + x.labels.len()
}

/// Whether the sizes and what follows them stand from `at` on.
spec fn tail_stands(data: Seq<u8>, x: Index, at: int) -> bool {
    let offsets = at + 4 * x.sizes.len();
    let panels = offsets + 4 * x.offsets.len();
    let units = panels + 4 * x.panels.len();
    let labels = units + 2 * x.units.len();
    &&& data.subrange(at, offsets) == u32_stream(x.sizes)
    &&& data.subrange(offsets, panels) == u32_stream(x.offsets)
    &&& data.subrange(panels, units) == u32_stream(x.panels)
    &&& data.subrange(units, labels) == i16_stream(x.units)
    &&& data.subrange(labels, labels + x.labels.len()) == x.labels
}

proof fn lemma_tail(data: Seq<u8>, x: Index, at: int)
    requires
        tables_agree(x),
        0 <= at,
        data.len() == at + tail_length(x),
        tail_stands(data, x, at),
    ensures
        ({
            let k = x.centroids.len();
            let units = at + 4 * k + 4 * (k + 1) + 4 * (k + 1);
            &&& u32s(data, at, k) == x.sizes
            &&& u32s(data, at + 4 * k, k + 1) == x.offsets
            &&& u32s(data, at + 4 * k + 4 * (k + 1), k + 1) == x.panels
            &&& u32_at(data, units - 4) == x.units.len()
            &&& i16s(data, units, x.units.len()) == x.units
            &&& data.subrange(
                units + 2 * x.units.len(),
                units + 2 * x.units.len() + x.labels.len(),
            ) == x.labels
        }),
{
    let k = x.centroids.len();
    let panels = at + 4 * k + 4 * (k + 1);
    crate::wire::law_u32s_are_read_back(data, at, x.sizes);
    crate::wire::law_u32s_are_read_back(data, at + 4 * k, x.offsets);
    crate::wire::law_u32s_are_read_back(data, panels, x.panels);
    crate::wire::law_i16s_are_read_back(data, panels + 4 * (k + 1), x.units);
    assert(u32s(data, panels, k + 1)[k as int] == x.panels[k as int]);
}

proof fn lemma_rows_with_bounds(data: Seq<u8>, x: Index)
    requires
        tables_agree(x),
        x.mins.len() == x.centroids.len(),
        x.maxs.len() == x.centroids.len(),
        forall|c: int| 0 <= c < x.mins.len() ==> (#[trigger] x.mins[c]).len() == 14,
        forall|c: int| 0 <= c < x.maxs.len() ==> (#[trigger] x.maxs[c]).len() == 14,
        data.len() >= 32 + 112 * x.centroids.len() as int,
        data.subrange(32, 32 + 56 * x.centroids.len() as int) == u32_stream(in_line(x.centroids)),
        data.subrange(32 + 56 * x.centroids.len() as int, 32 + 84 * x.centroids.len() as int) == i16_stream(
            in_line(x.mins),
        ),
        data.subrange(32 + 84 * x.centroids.len() as int, 32 + 112 * x.centroids.len() as int) == i16_stream(
            in_line(x.maxs),
        ),
    ensures
        u32_rows(data, 32, x.centroids.len()) == x.centroids,
        i16_rows(data, 32 + 56 * x.centroids.len() as int, x.centroids.len()) == x.mins,
        i16_rows(data, 32 + 84 * x.centroids.len() as int, x.centroids.len()) == x.maxs,
{
    let k = x.centroids.len() as int;
    crate::wire::law_u32s_are_read_back(data, 32, in_line(x.centroids));
    lemma_u32_rows(data, 32, x.centroids);
    crate::wire::law_i16s_are_read_back(data, 32 + 56 * k, in_line(x.mins));
    lemma_i16_rows(data, 32 + 56 * k, x.mins);
    crate::wire::law_i16s_are_read_back(data, 32 + 84 * k, in_line(x.maxs));
    lemma_i16_rows(data, 32 + 84 * k, x.maxs);
}

/// A stream whose parts are those of `x` describes `x`.
proof fn lemma_composed(data: Seq<u8>, x: Index)
    requires
        tables_agree(x),
        x.labels.len() <= u32::MAX,
        u32_at(data, 0) == 0x4656_4952,
        u32_at(data, 4) == 2,
        u32_at(data, 8) == x.labels.len(),
        u32_at(data, 12) == 14,
        u32_at(data, 16) == x.centroids.len(),
        u32_at(data, 20) == x.scale,
        data.len() == 32 + 112 * x.centroids.len() as int + tail_length(x),
        u32_rows(data, 32, x.centroids.len()) == x.centroids,
        i16_rows(data, 32 + 56 * x.centroids.len() as int, x.centroids.len()) == x.mins,
        i16_rows(data, 32 + 84 * x.centroids.len() as int, x.centroids.len()) == x.maxs,
        ({
            let k = x.centroids.len();
            let at = 32 + 112 * k;
            let units = at + 4 * k + 4 * (k + 1) + 4 * (k + 1);
            &&& u32s(data, at as int, k) == x.sizes
            &&& u32s(data, (at + 4 * k) as int, k + 1) == x.offsets
            &&& u32s(data, (at + 4 * k + 4 * (k + 1)) as int, k + 1) == x.panels
            &&& u32_at(data, units - 4) == x.units.len()
            &&& i16s(data, units as int, x.units.len()) == x.units
            &&& data.subrange(
                (units + 2 * x.units.len()) as int,
                (units + 2 * x.units.len() + x.labels.len()) as int,
            ) == x.labels
        }),
    ensures
        index_of(data) == Ok::<Index, crate::index::IndexError>(x),
{
    let k = x.centroids.len();
    assert(units_at(2, k as int) == 32 + 112 * k + 4 * k + 4 * (k + 1) + 4 * (k + 1));
    let t = tables_of(data, x.units.len() as int);
    assert(t.centroids == x.centroids);
    assert(t.mins == x.mins);
    assert(t.maxs == x.maxs);
    assert(t.sizes == x.sizes);
    assert(t.offsets == x.offsets);
    assert(t.panels == x.panels);
    assert(t.units == x.units);
    assert(t.labels == x.labels);
    assert(t == x);
}

/// A stream without bounds whose parts are those of `x` describes `x` with the bounds of its
/// vectors.
proof fn lemma_composed_without_bounds(data: Seq<u8>, x: Index) -> (y: Index)
    requires
        tables_agree(x),
        x.labels.len() <= u32::MAX,
        forall|c: int|
            0 <= c < x.sizes.len() && #[trigger] x.sizes[c] > 0 ==> x.offsets[c] + x.sizes[c]
                <= x.labels.len() && x.panels[c] + 14 * x.sizes[c] <= x.units.len(),
        u32_at(data, 0) == 0x4656_4952,
        u32_at(data, 4) == 1,
        u32_at(data, 8) == x.labels.len(),
        u32_at(data, 12) == 14,
        u32_at(data, 16) == x.centroids.len(),
        u32_at(data, 20) == x.scale,
        data.len() == 32 + 56 * x.centroids.len() as int + tail_length(x),
        u32_rows(data, 32, x.centroids.len()) == x.centroids,
        ({
            let k = x.centroids.len();
            let at = 32 + 56 * k;
            let units = at + 4 * k + 4 * (k + 1) + 4 * (k + 1);
            &&& u32s(data, at as int, k) == x.sizes
            &&& u32s(data, (at + 4 * k) as int, k + 1) == x.offsets
            &&& u32s(data, (at + 4 * k + 4 * (k + 1)) as int, k + 1) == x.panels
            &&& u32_at(data, units - 4) == x.units.len()
            &&& i16s(data, units as int, x.units.len()) == x.units
            &&& data.subrange(
                (units + 2 * x.units.len()) as int,
                (units + 2 * x.units.len() + x.labels.len()) as int,
            ) == x.labels
        }),
    ensures
        index_of(data) == Ok::<Index, crate::index::IndexError>(y),
        y == tables_of(data, x.units.len() as int).bounded(),
        y == (Index { mins: y.mins, maxs: y.maxs, ..x }),
        ({
            let t = tables_of(data, x.units.len() as int);
            t == (Index { mins: t.mins, maxs: t.maxs, ..x })
        }),
{
    let k = x.centroids.len();
    assert(units_at(1, k as int) == 32 + 56 * k + 4 * k + 4 * (k + 1) + 4 * (k + 1));
    let t = tables_of(data, x.units.len() as int);
    assert(t.centroids == x.centroids);
    assert(t.sizes == x.sizes);
    assert(t.offsets == x.offsets);
    assert(t.panels == x.panels);
    assert(t.units == x.units);
    assert(t.labels == x.labels);
    assert(t == (Index { mins: t.mins, maxs: t.maxs, ..x }));
    assert forall|c: int| 0 <= c < t.sizes.len() implies #[trigger] t.holds(c) by {
        if x.sizes[c] > 0 {
            assert(x.offsets[c] + x.sizes[c] <= x.labels.len());
        }
    }
    t.bounded()
}

/// A stream of version 2 is read back as the index that it was composed of: the first table
/// of rows behind the centroids holds the least components of the clusters, the second the
/// greatest.
pub proof fn law_streams_with_bounds_are_read_back(x: Index, a: u32, b: u32)
    requires
        tables_agree(x),
        x.mins.len() == x.centroids.len(),
        x.maxs.len() == x.centroids.len(),
        forall|c: int| 0 <= c < x.mins.len() ==> (#[trigger] x.mins[c]).len() == 14,
        forall|c: int| 0 <= c < x.maxs.len() ==> (#[trigger] x.maxs[c]).len() == 14,
    ensures
        index_of(stream_with_bounds(x, a, b)) == Ok::<Index, crate::index::IndexError>(x),
{
    lemma_parts_with_bounds(x, a, b);
    lemma_read_with_bounds(stream_with_bounds(x, a, b), x, a, b);
}

proof fn lemma_read_with_bounds(data: Seq<u8>, x: Index, a: u32, b: u32)
    requires
        tables_agree(x),
        x.mins.len() == x.centroids.len(),
        x.maxs.len() == x.centroids.len(),
        forall|c: int| 0 <= c < x.mins.len() ==> (#[trigger] x.mins[c]).len() == 14,
        forall|c: int| 0 <= c < x.maxs.len() ==> (#[trigger] x.maxs[c]).len() == 14,
        ({
            let k = x.centroids.len() as int;
            &&& data.len() == 32 + 112 * k + tail_length(x)
            &&& data.subrange(0, 32) == u32_stream(
                header_of(2, x.labels.len(), x.centroids.len(), x.scale, a, b),
            )
            &&& data.subrange(32, 32 + 56 * k) == u32_stream(in_line(x.centroids))
            &&& data.subrange(32 + 56 * k, 32 + 84 * k) == i16_stream(in_line(x.mins))
            &&& data.subrange(32 + 84 * k, 32 + 112 * k) == i16_stream(in_line(x.maxs))
            &&& tail_stands(data, x, 32 + 112 * k)
        }),
    ensures
        index_of(data) == Ok::<Index, crate::index::IndexError>(x),
{
    let k = x.centroids.len();
    assert(x.offsets[k as int] == x.labels.len());
    lemma_fields(data, 2, x.labels.len(), k, x.scale, a, b);
    lemma_rows_with_bounds(data, x);
    lemma_tail(data, x, 32 + 112 * k as int);
    lemma_composed(data, x);
}

/// Whether a vector of cluster `c` has `v` for its component `d`.
pub open spec fn is_met(x: Index, c: int, d: int, v: i16) -> bool {
    exists|i: int| 0 <= i < x.sizes[c] && (#[trigger] x.vector(c, i))[d] == v
}

/// Whether `mins` and `maxs` are the bounds of the vectors of each cluster: none lies outside
/// them, and each is met by one.
pub open spec fn has_its_bounds(x: Index, mins: Seq<Seq<i16>>, maxs: Seq<Seq<i16>>) -> bool {
    &&& mins.len() == x.sizes.len()
    &&& maxs.len() == x.sizes.len()
    &&& forall|c: int, d: int|
        0 <= c < x.sizes.len() && 0 <= d < 14 && x.sizes[c] > 0 ==> is_met(
            x,
            c,
            d,
            #[trigger] mins[c][d],
        )
    &&& forall|c: int, d: int|
        0 <= c < x.sizes.len() && 0 <= d < 14 && x.sizes[c] > 0 ==> is_met(
            x,
            c,
            d,
            #[trigger] maxs[c][d],
        )
    &&& forall|c: int, i: int, d: int|
        0 <= c < x.sizes.len() && 0 <= i < x.sizes[c] && 0 <= d < 14 ==> mins[c][d]
            <= #[trigger] x.vector(c, i)[d] <= maxs[c][d]
}

/// A stream of version 1 is read back as the index that it was composed of, where the
/// vectors and labels of its clusters are there. Its bounds are those of the vectors: no
/// vector lies outside them, and each is met by one.
pub proof fn law_streams_without_bounds_are_read_back(x: Index, a: u32, b: u32)
    requires
        tables_agree(x),
        forall|c: int|
            0 <= c < x.sizes.len() && #[trigger] x.sizes[c] > 0 ==> x.offsets[c] + x.sizes[c]
                <= x.labels.len() && x.panels[c] + 14 * x.sizes[c] <= x.units.len(),
    ensures
        index_of(stream_without_bounds(x, a, b)) matches Ok(y) && {
            &&& y == (Index { mins: y.mins, maxs: y.maxs, ..x })
            &&& has_its_bounds(x, y.mins, y.maxs)
        },
{
    lemma_parts_without_bounds(x, a, b);
    let data = stream_without_bounds(x, a, b);
    let y = lemma_read_without_bounds(data, x, a, b);
    assert(has_its_bounds(x, y.mins, y.maxs)) by {
        lemma_bounds_are_tight(tables_of(data, x.units.len() as int), x, y);
    }
}

proof fn lemma_read_without_bounds(data: Seq<u8>, x: Index, a: u32, b: u32) -> (y: Index)
    requires
        tables_agree(x),
        forall|c: int|
            0 <= c < x.sizes.len() && #[trigger] x.sizes[c] > 0 ==> x.offsets[c] + x.sizes[c]
                <= x.labels.len() && x.panels[c] + 14 * x.sizes[c] <= x.units.len(),
        ({
            let k = x.centroids.len() as int;
            &&& data.len() == 32 + 56 * k + tail_length(x)
            &&& data.subrange(0, 32) == u32_stream(
                header_of(1, x.labels.len(), x.centroids.len(), x.scale, a, b),
            )
            &&& data.subrange(32, 32 + 56 * k) == u32_stream(in_line(x.centroids))
            &&& tail_stands(data, x, 32 + 56 * k)
        }),
    ensures
        index_of(data) == Ok::<Index, crate::index::IndexError>(y),
        y == tables_of(data, x.units.len() as int).bounded(),
        y == (Index { mins: y.mins, maxs: y.maxs, ..x }),
        ({
            let t = tables_of(data, x.units.len() as int);
            t == (Index { mins: t.mins, maxs: t.maxs, ..x })
        }),
{
    let k = x.centroids.len();
    assert(x.offsets[k as int] == x.labels.len());
    lemma_fields(data, 1, x.labels.len(), k, x.scale, a, b);
    crate::wire::law_u32s_are_read_back(data, 32, in_line(x.centroids));
    lemma_u32_rows(data, 32, x.centroids);
    lemma_tail(data, x, 32 + 56 * k as int);
    lemma_composed_without_bounds(data, x)
}

proof fn lemma_bounds_are_tight(t: Index, x: Index, y: Index)
    requires
        tables_agree(x),
        t == (Index { mins: t.mins, maxs: t.maxs, ..x }),
        y == t.bounded(),
    ensures
        has_its_bounds(x, y.mins, y.maxs),
{
    assert forall|c: int, i: int| #[trigger] t.vector(c, i) == x.vector(c, i) by {
        assert(t.vector(c, i) =~= x.vector(c, i));
    }
    assert forall|c: int, i: int, d: int|
        0 <= c < x.sizes.len() && 0 <= i < x.sizes[c] && 0 <= d < 14 implies y.mins[c][d]
        <= #[trigger] x.vector(c, i)[d] <= y.maxs[c][d] by {
        crate::index::lemma_bounds(t, c, d, t.sizes[c] as nat, i);
        assert(t.vector(c, i) == x.vector(c, i));
    }
    assert forall|c: int, d: int|
        0 <= c < x.sizes.len() && 0 <= d < 14 && x.sizes[c] > 0 implies (exists|i: int|
        0 <= i < x.sizes[c] && (#[trigger] x.vector(c, i))[d] == (#[trigger] y.mins[c][d])) by {
        let i = lemma_least_is_met(t, c, d, t.sizes[c] as nat);
        assert(t.vector(c, i) == x.vector(c, i));
    }
    assert forall|c: int, d: int|
        0 <= c < x.sizes.len() && 0 <= d < 14 && x.sizes[c] > 0 implies is_met(
        x,
        c,
        d,
        #[trigger] y.mins[c][d],
    ) by {
        let i = lemma_least_is_met(t, c, d, t.sizes[c] as nat);
        assert(t.vector(c, i) == x.vector(c, i));
    }
    assert forall|c: int, d: int|
        0 <= c < x.sizes.len() && 0 <= d < 14 && x.sizes[c] > 0 implies is_met(
        x,
        c,
        d,
        #[trigger] y.maxs[c][d],
    ) by {
        let i = lemma_greatest_is_met(t, c, d, t.sizes[c] as nat);
        assert(t.vector(c, i) == x.vector(c, i));
    }
}

proof fn lemma_least_is_met(x: Index, c: int, d: int, n: nat) -> (i: int)
    requires
        n > 0,
    ensures
        0 <= i < n,
        x.vector(c, i)[d] == x.least(c, d, n),
    decreases n,
{
    if n == 1 {
        assert(x.least(c, d, 0) == i16::MAX);
        0
    } else {
        let i = lemma_least_is_met(x, c, d, (n - 1) as nat);
        if x.vector(c, n - 1)[d] < x.least(c, d, (n - 1) as nat) {
            n - 1
        } else {
            i
        }
    }
}

proof fn lemma_greatest_is_met(x: Index, c: int, d: int, n: nat) -> (i: int)
    requires
        n > 0,
    ensures
        0 <= i < n,
        x.vector(c, i)[d] == x.greatest(c, d, n),
    decreases n,
{
    if n == 1 {
        assert(x.greatest(c, d, 0) == i16::MIN);
        0
    } else {
        let i = lemma_greatest_is_met(x, c, d, (n - 1) as nat);
        if x.vector(c, n - 1)[d] > x.greatest(c, d, (n - 1) as nat) {
            n - 1
        } else {
            i
        }
    }
}

/// The vectors of a cluster stand in panels of eight as long as they fill one, component by
/// component, and those left over one after the other behind them.
pub proof fn law_where_components_stand(x: Index, c: int, i: int, d: int)
    requires
        0 <= i < x.sizes[c],
        0 <= d < 14,
    ensures
        x.vector(c, i).len() == 14,
        i - i % 8 + 8 <= x.sizes[c] ==> x.vector(c, i)[d] == x.units[x.panels[c] + 14 * (i - i % 8)
            + 8 * d + i % 8],
        i - i % 8 + 8 > x.sizes[c] ==> x.vector(c, i)[d] == x.units[x.panels[c] + 14 * i + d],
{
    let size = x.sizes[c] as int;
    assert(size / 8 * 8 <= size < size / 8 * 8 + 8);
    assert(i / 8 * 8 == i - i % 8);
}

/// The number that the four bytes at `p` write, the lowest byte first.
pub open spec fn four_bytes(data: Seq<u8>, p: int) -> int {
    data[p] + 0x100 * data[p + 1] + 0x1_0000 * data[p + 2] + 0x100_0000 * data[p + 3]
}

/// A stream is refused for the first thing that is wrong with its header: it is cut off, it
/// does not begin with `RIVF`, it is of another version than 1 and 2, its vectors do not have
/// fourteen components, or it has no vectors or no clusters.
pub proof fn law_headers_are_checked(data: Seq<u8>)
    ensures
        data.len() < 32 <==> index_of(data) == Err::<Index, IndexError>(IndexError::TooSmall),
        data.len() >= 32 ==> {
            let magic = data.take(4) == seq![0x52u8, 0x49u8, 0x56u8, 0x46u8];
            let version = four_bytes(data, 4);
            let dimension = four_bytes(data, 12);
            let known = version == 1 || version == 2;
            let empty = four_bytes(data, 8) == 0 || four_bytes(data, 16) == 0;
            &&& !magic <==> index_of(data) == Err::<Index, IndexError>(IndexError::BadMagic)
            &&& magic && !known <==> index_of(data) == Err::<Index, IndexError>(
                IndexError::UnsupportedVersion(version as u32),
            )
            &&& magic && known && dimension != 14 <==> index_of(data) == Err::<Index, IndexError>(
                IndexError::UnsupportedDimension(dimension as u32),
            )
            &&& magic && known && dimension == 14 && empty <==> index_of(data) == Err::<
                Index,
                IndexError,
            >(IndexError::EmptyCounts)
        },
{
    if data.len() >= 32 {
        let magic = seq![0x52u8, 0x49u8, 0x56u8, 0x46u8];
        let head = data.take(4);
        assert(head[0] == data[0] && head[1] == data[1] && head[2] == data[2] && head[3]
            == data[3]);
        if u32_at(data, 0) == 0x4656_4952 {
            assert(head =~= magic);
        }
    }
}

/// What is read out of a stream is as much as its header says, and as long as the stream.
pub proof fn law_streams_are_read_whole(data: Seq<u8>)
    ensures
        index_of(data) matches Ok(x) ==> {
            let k = four_bytes(data, 16);
            let bounds = if four_bytes(data, 4) == 2 {
                56 * k
            } else {
                0
            };
            &&& x.labels.len() == four_bytes(data, 8)
            &&& x.centroids.len() == k
            &&& x.scale == four_bytes(data, 20)
            &&& x.offsets[k] == x.labels.len()
            &&& x.panels[k] == x.units.len()
            &&& data.len() == 40 + 68 * k + bounds + 2 * x.units.len() + x.labels.len()
        },
{
    crate::index::law_index_is_shaped(data);
}

proof fn lemma_same_head(a: Seq<u8>, b: Seq<u8>, m: int)
    requires
        0 <= m <= a.len(),
        m <= b.len(),
        a.take(m) == b.take(m),
    ensures
        forall|p: int| 0 <= p && p + 4 <= m ==> #[trigger] u32_at(a, p) == u32_at(b, p),
{
    assert forall|p: int| 0 <= p && p + 4 <= m implies #[trigger] u32_at(a, p) == u32_at(b, p) by {
        assert forall|j: int| 0 <= j < m implies a[j] == b[j] by {
            assert(a.take(m)[j] == a[j] && b.take(m)[j] == b[j]);
        }
    }
}

/// A stream that is read ends where it ends: with anything behind it, it is refused, and
/// the error says how much there is.
pub proof fn law_nothing_follows_a_stream(data: Seq<u8>, more: Seq<u8>)
    requires
        index_of(data) is Ok,
        0 < more.len() <= usize::MAX,
    ensures
        index_of(data + more) == Err::<Index, IndexError>(
            IndexError::TrailingBytes(more.len() as usize),
        ),
{
    let longer = data + more;
    assert(longer.take(data.len() as int) =~= data.take(data.len() as int));
    lemma_same_head(data, longer, data.len() as int);
    let start = units_at(u32_at(data, 4), u32_at(data, 16) as int);
    assert(u32_at(longer, start - 4) == u32_at(data, start - 4));
}

/// A stream that is read is refused when it is cut off anywhere: as too small within the
/// header, for want of labels within the labels, and as ended too soon in between.
pub proof fn law_no_stream_is_cut_off(data: Seq<u8>, m: int)
    requires
        index_of(data) is Ok,
        0 <= m < data.len(),
    ensures
        index_of(data.take(m)) == Err::<Index, IndexError>(
            if m < 32 {
                IndexError::TooSmall
            } else if m < data.len() - four_bytes(data, 8) {
                IndexError::UnexpectedEnd
            } else {
                IndexError::MissingLabels
            },
        ),
{
    let shorter = data.take(m);
    assert(shorter.take(m) =~= data.take(m));
    if m >= 32 {
        lemma_same_head(data, shorter, m);
        let start = units_at(u32_at(data, 4), u32_at(data, 16) as int);
        if m >= start {
            assert(u32_at(shorter, start - 4) == u32_at(data, start - 4));
        }
    }
}

} // verus!
