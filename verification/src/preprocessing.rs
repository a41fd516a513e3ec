//! Building an index: the first centroids, the assignment of vectors to clusters, the
//! layout of a cluster and the byte stream of the whole.
use crate::bytes::same_bytes;
use crate::distance::key_of_bits;
use crate::index::{INDEX_MAGIC, LANES};
use crate::selection::is_nearer;
use crate::wire::{push_i16, push_u32, DIM};
use rand::seq::SliceRandom;
use vstd::prelude::*;
use vstd::string::StringSliceAdditionalSpecFns;

verus! {

use crate::distance::order_key;
use crate::index::in_panels;
use crate::selection::nearer;
use crate::single::{is_number, less};
use crate::wire::{i16_stream, u32_stream};

/// The version of the streams that are written: one without bounds.
pub const WRITTEN_VERSION: u32 = 1;

/// What a component of the value one is quantised to.
pub const SCALE: u32 = 10_000;

/// The bits of the greatest finite single precision number.
pub const GREATEST_BITS: u32 = 0x7f7f_ffff;

/// How many rounds of moving the centroids there are at most.
pub const MAX_ROUNDS: usize = 50;

/// The bits of the single precision number next to a millionth. Centroids that move by less,
/// squared, have settled.
pub const SETTLED_BITS: u32 = 0x3586_37bd;

/// A reference vector; the components are single precision numbers, bit for bit.
#[derive(Clone, Copy)]
pub struct RawVector {
    pub vector: [u32; 14],
    pub is_fraud: bool,
}

/// A reference vector with quantised components.
#[derive(Clone, Copy)]
pub struct Reference {
    pub vector: [i16; 14],
    pub is_fraud: bool,
}

/// The encoding of a cluster.
pub struct ClusterBuffer {
    pub vectors: Vec<u8>,
    pub labels: Vec<u8>,
    pub units: u32,
}

/// The encoding of a cluster: the bytes of its vectors, its labels and the number of its
/// components.
#[verifier::ext_equal]
pub struct Encoded {
    pub vectors: Seq<u8>,
    pub labels: Seq<u8>,
    pub units: u32,
}

impl View for ClusterBuffer {
    type V = Encoded;

    open spec fn view(&self) -> Encoded {
        Encoded { vectors: self.vectors@, labels: self.labels@, units: self.units }
    }
}

/// The contents of buffers.
pub open spec fn contents(buffers: Seq<ClusterBuffer>) -> Seq<Encoded> {
    Seq::new(buffers.len(), |c: int| buffers[c]@)
}

/// Whether `chosen` are the references at the places `at`, no place twice.
pub open spec fn chosen_at(
    references: Seq<RawVector>,
    chosen: Seq<RawVector>,
    at: Seq<int>,
) -> bool {
    &&& at.len() == chosen.len()
    &&& at.no_duplicates()
    &&& forall|i: int|
        0 <= i < at.len() ==> 0 <= #[trigger] at[i] < references.len() && chosen[i]
            == references[at[i]]
}

/// `amount` references chosen at random without repetition, or all of them in a random order
/// if there are fewer: `choose_multiple` of `rand`, with the random number generator of the
/// thread. Which ones come out, and in what order, is chance and not stated.
#[verifier::external_body]
fn choose_references(references: &Vec<RawVector>, amount: usize) -> (r: Vec<RawVector>)
    ensures
        r.len() == if amount < references.len() {
            amount
        } else {
            references.len()
        },
        exists|at: Seq<int>| chosen_at(references@, r@, at),
{
    references.choose_multiple(&mut rand::thread_rng(), amount).copied().collect()
}

/// The vectors of references.
pub fn vectors_of(references: &Vec<RawVector>) -> (r: Vec<[u32; 14]>)
    ensures
        r.len() == references.len(),
        forall|i: int| 0 <= i < r.len() ==> #[trigger] r@[i] == references@[i].vector,
{
    let mut vectors: Vec<[u32; 14]> = Vec::new();
    let mut i: usize = 0;
    while i < references.len()
        invariant
            i <= references.len(),
            vectors.len() == i,
            forall|j: int| 0 <= j < i ==> #[trigger] vectors@[j] == references@[j].vector,
        decreases references.len() - i,
    {
        vectors.push(references[i].vector);
        i += 1;
    }
    vectors
}

/// The first centroids: the vectors of `k` references chosen at random, none twice, or of
/// all of them if there are fewer.
pub fn initial_centroids(references: &Vec<RawVector>, k: usize) -> (r: Vec<[u32; 14]>)
    ensures
        r.len() == if k < references.len() {
            k
        } else {
            references.len()
        },
        exists|at: Seq<int>|
            {
                &&& at.len() == r.len()
                &&& #[trigger] at.no_duplicates()
                &&& forall|i: int|
                    0 <= i < at.len() ==> 0 <= #[trigger] at[i] < references.len() && r@[i]
                        == references@[at[i]].vector
            },
{
    let chosen = choose_references(references, k);
    let centroids = vectors_of(&chosen);
    proof {
        let at = choose|at: Seq<int>| chosen_at(references@, chosen@, at);
        assert(at.no_duplicates());
        assert forall|i: int| 0 <= i < at.len() implies 0 <= #[trigger] at[i] < references.len()
            && centroids@[i] == references@[at[i]].vector by {
            assert(chosen@[i] == references@[at[i]]);
        }
    }
    centroids
}

/// Whether a label says fraud.
pub fn is_fraud_label(label: &[u8]) -> (r: bool)
    ensures
        r == (label@ == "fraud".spec_bytes()),
{
    same_bytes(label, "fraud".as_bytes())
}

/// The first of the first `n` distances that none of them undercuts, with its place;
/// distances that are no finite numbers do not count.
pub open spec fn closest(bits: Seq<u32>, n: nat) -> (Option<i64>, int)
    decreases n,
{
    if n == 0 {
        (order_key(GREATEST_BITS), 0)
    } else {
        let before = closest(bits, (n - 1) as nat);
        if nearer(order_key(bits[n - 1]), before.0) {
            (order_key(bits[n - 1]), n - 1)
        } else {
            before
        }
    }
}

/// The cluster whose centroid is closest. `distances` are the distances of the centroids,
/// as the bits of single precision numbers.
pub fn nearest_centroid(distances: &[u32]) -> (r: usize)
    ensures
        r == closest(distances@, distances@.len()).1,
{
    let mut min_dist = key_of_bits(GREATEST_BITS);
    let mut best: usize = 0;
    let mut i: usize = 0;
    while i < distances.len()
        invariant
            i <= distances.len(),
            (min_dist, best as int) == closest(distances@, i as nat),
        decreases distances.len() - i,
    {
        let d = key_of_bits(distances[i]);
        if is_nearer(d, min_dist) {
            min_dist = d;
            best = i;
        }
        i += 1;
    }
    best
}

/// Whether the centroids have settled, when the farthest move among them, squared, is the
/// single precision number with the bits `shift`.
pub open spec fn settled(shift: u32) -> bool {
    nearer(order_key(shift), order_key(SETTLED_BITS))
}

/// Whether the centroids have settled after a round in which the farthest moved by `shift`,
/// squared.
pub fn has_settled(shift: u32) -> (r: bool)
    ensures
        r == settled(shift),
{
    is_nearer(key_of_bits(shift), key_of_bits(SETTLED_BITS))
}

/// Whether another round follows the first `done`, in the last of which the farthest
/// centroid moved by `shift`, squared.
pub fn goes_on(done: usize, shift: u32) -> (r: bool)
    ensures
        r == (done < MAX_ROUNDS && !settled(shift)),
        r == (done < 50 && !less(shift, 0x3586_37bd)),
{
    proof {
        law_small_moves_settle(shift, shift);
    }
    done < MAX_ROUNDS && !has_settled(shift)
}

/// The places among the first `n` that are assigned to cluster `c`.
pub open spec fn members_of(assignments: Seq<usize>, c: int, n: nat) -> Seq<usize>
    decreases n,
{
    if n == 0 {
        Seq::empty()
    } else {
        let before = members_of(assignments, c, (n - 1) as nat);
        if assignments[n - 1] == c {
            before.push((n - 1) as usize)
        } else {
            before
        }
    }
}

/// The places that are assigned to each cluster.
pub fn group_by_cluster(assignments: &[usize], k: usize) -> (r: Vec<Vec<usize>>)
    requires
        forall|i: int| 0 <= i < assignments.len() ==> #[trigger] assignments@[i] < k,
    ensures
        r.len() == k,
        forall|c: int|
            0 <= c < k ==> (#[trigger] r@[c])@ == members_of(
                assignments@,
                c,
                assignments@.len(),
            ),
{
    let mut clusters: Vec<Vec<usize>> = Vec::new();
    let mut c: usize = 0;
    while c < k
        invariant
            c <= k,
            clusters.len() == c,
            forall|b: int| 0 <= b < c ==> (#[trigger] clusters@[b])@ == Seq::<usize>::empty(),
        decreases k - c,
    {
        clusters.push(Vec::new());
        c += 1;
    }
    let mut i: usize = 0;
    while i < assignments.len()
        invariant
            i <= assignments.len(),
            clusters.len() == k,
            forall|j: int| 0 <= j < assignments.len() ==> #[trigger] assignments@[j] < k,
            forall|b: int|
                0 <= b < k ==> (#[trigger] clusters@[b])@ == members_of(assignments@, b, i as nat),
        decreases assignments.len() - i,
    {
        let best = assignments[i];
        let ghost before = clusters@;
        clusters[best].push(i);
        assert forall|b: int| 0 <= b < k implies (#[trigger] clusters@[b])@ == members_of(
            assignments@,
            b,
            (i + 1) as nat,
        ) by {
            assert(before[b]@ == members_of(assignments@, b, i as nat));
        }
        i += 1;
    }
    clusters
}

/// The components of a cluster: full panels of eight vectors, component by component, then
/// the rest vector by vector.
pub open spec fn cluster_units(rows: Seq<Reference>) -> Seq<i16> {
    Seq::new(
        14 * rows.len(),
        |u: int|
            if u < 14 * in_panels(rows.len() as int) {
                rows[u / 112 * 8 + u % 8].vector@[u % 112 / 8]
            } else {
                rows[u / 14].vector@[u % 14]
            },
    )
}

/// The label of a reference.
pub open spec fn label_of(row: Reference) -> u8 {
    if row.is_fraud {
        1
    } else {
        0
    }
}

/// The encoding of a cluster.
pub open spec fn encoded(rows: Seq<Reference>) -> Encoded {
    Encoded {
        vectors: i16_stream(cluster_units(rows)),
        labels: Seq::new(rows.len(), |i: int| label_of(rows[i])),
        units: (14 * rows.len()) as u32,
    }
}

/// Appends the next component of a cluster.
fn push_unit(out: &mut Vec<u8>, v: i16, Ghost(units): Ghost<Seq<i16>>, Ghost(at): Ghost<int>)
    requires
        0 <= at < units.len(),
        units[at] == v,
        old(out)@ == i16_stream(units.take(at)),
    ensures
        final(out)@ == i16_stream(units.take(at + 1)),
{
    push_i16(out, v);
    proof {
        crate::wire::lemma_i16_stream_push(units.take(at), v);
        assert(units.take(at + 1) =~= units.take(at).push(v));
    }
}

/// Encodes a cluster.
pub fn encode_cluster(cluster: &[Reference]) -> (r: ClusterBuffer)
    requires
        14 * cluster.len() <= u32::MAX,
    ensures
        r@ == encoded(cluster@),
{
    let full_panels = cluster.len() / 8;
    let mut vectors: Vec<u8> = Vec::new();
    let ghost units = cluster_units(cluster@);
    let mut panel: usize = 0;
    assert(i16_stream(units.take(0)) =~= Seq::empty());
    while panel < full_panels
        invariant
            panel <= full_panels == cluster.len() / 8,
            units == cluster_units(cluster@),
            vectors@ == i16_stream(units.take(panel * 112)),
        decreases full_panels - panel,
    {
        let mut dim: usize = 0;
        while dim < DIM
            invariant
                panel < full_panels == cluster.len() / 8,
                units == cluster_units(cluster@),
                dim <= DIM,
                vectors@ == i16_stream(units.take(panel * 112 + dim * 8)),
            decreases DIM - dim,
        {
            let mut lane: usize = 0;
            while lane < LANES
                invariant
                    panel < full_panels == cluster.len() / 8,
                    units == cluster_units(cluster@),
                    dim < DIM,
                    lane <= LANES,
                    vectors@ == i16_stream(units.take(panel * 112 + dim * 8 + lane)),
                decreases LANES - lane,
            {
                assert(panel * 8 + lane < cluster.len());
                let v = cluster[panel * 8 + lane].vector[dim];
                let ghost at = panel * 112 + dim * 8 + lane;
                assert(at / 112 == panel && at % 8 == lane && at % 112 / 8 == dim);
                push_unit(&mut vectors, v, Ghost(units), Ghost(at));
                lane += 1;
            }
            dim += 1;
        }
        panel += 1;
    }
    let mut i: usize = full_panels * 8;
    while i < cluster.len()
        invariant
            in_panels(cluster.len() as int) <= i <= cluster.len(),
            units == cluster_units(cluster@),
            vectors@ == i16_stream(units.take(i * 14)),
        decreases cluster.len() - i,
    {
        let mut dim: usize = 0;
        while dim < DIM
            invariant
                in_panels(cluster.len() as int) <= i < cluster.len(),
                units == cluster_units(cluster@),
                dim <= DIM,
                vectors@ == i16_stream(units.take(i * 14 + dim)),
            decreases DIM - dim,
        {
            let v = cluster[i].vector[dim];
            let ghost at = i * 14 + dim;
            assert(at / 14 == i && at % 14 == dim);
            push_unit(&mut vectors, v, Ghost(units), Ghost(at));
            dim += 1;
        }
        i += 1;
    }
    assert(units.take(i * 14) =~= units);
    let mut labels: Vec<u8> = Vec::new();
    let mut j: usize = 0;
    while j < cluster.len()
        invariant
            j <= cluster.len(),
            labels.len() == j,
            forall|l: int| 0 <= l < j ==> #[trigger] labels@[l] == label_of(cluster@[l]),
        decreases cluster.len() - j,
    {
        labels.push(
            if cluster[j].is_fraud {
                1
            } else {
                0
            },
        );
        j += 1;
    }
    assert(labels@ =~= encoded(cluster@).labels);
    ClusterBuffer { vectors, labels, units: 14 * cluster.len() as u32 }
}

/// The labels of the first `c` clusters.
pub open spec fn labels_before(buffers: Seq<Encoded>, c: nat) -> Seq<u8>
    decreases c,
{
    if c == 0 {
        Seq::empty()
    } else {
        labels_before(buffers, (c - 1) as nat) + buffers[c - 1].labels
    }
}

/// The vectors of the first `c` clusters.
pub open spec fn vectors_before(buffers: Seq<Encoded>, c: nat) -> Seq<u8>
    decreases c,
{
    if c == 0 {
        Seq::empty()
    } else {
        vectors_before(buffers, (c - 1) as nat) + buffers[c - 1].vectors
    }
}

/// How many components the first `c` clusters have.
pub open spec fn units_before(buffers: Seq<Encoded>, c: nat) -> nat
    decreases c,
{
    if c == 0 {
        0
    } else {
        units_before(buffers, (c - 1) as nat) + buffers[c - 1].units as nat
    }
}

/// The header of an index of `k` clusters and `n` vectors.
pub open spec fn header(n: nat, k: nat) -> Seq<u32> {
    seq![INDEX_MAGIC, WRITTEN_VERSION, n as u32, DIM as u32, k as u32, SCALE, 0, 0]
}

/// The components of the centroids, one centroid after the other.
pub open spec fn flattened(rows: Seq<Seq<u32>>) -> Seq<u32> {
    Seq::new(14 * rows.len(), |i: int| rows[i / 14][i % 14])
}

/// The sizes of the clusters.
pub open spec fn sizes(buffers: Seq<Encoded>) -> Seq<u32> {
    Seq::new(buffers.len(), |c: int| buffers[c].labels.len() as u32)
}

/// The offsets of the labels of the clusters, and their end.
pub open spec fn label_offsets(buffers: Seq<Encoded>) -> Seq<u32> {
    Seq::new(buffers.len() + 1, |c: int| labels_before(buffers, c as nat).len() as u32)
}

/// The offsets of the vectors of the clusters, and their end.
pub open spec fn panel_offsets(buffers: Seq<Encoded>) -> Seq<u32> {
    Seq::new(buffers.len() + 1, |c: int| units_before(buffers, c as nat) as u32)
}

/// The byte stream of an index.
pub open spec fn index_stream(centroids: Seq<Seq<u32>>, buffers: Seq<Encoded>) -> Seq<u8> {
    let k = buffers.len();
    let labels = labels_before(buffers, k);
    u32_stream(header(labels.len(), k)) + u32_stream(flattened(centroids)) + u32_stream(
        sizes(buffers),
    ) + u32_stream(label_offsets(buffers)) + u32_stream(panel_offsets(buffers)) + vectors_before(
        buffers,
        k,
    ) + labels
}

/// Appends bytes.
fn push_bytes(out: &mut Vec<u8>, bytes: &Vec<u8>)
    ensures
        final(out)@ == old(out)@ + bytes@,
{
    let mut i: usize = 0;
    assert(old(out)@ + bytes@.take(0) =~= old(out)@);
    while i < bytes.len()
        invariant
            i <= bytes.len(),
            out@ == old(out)@ + bytes@.take(i as int),
        decreases bytes.len() - i,
    {
        out.push(bytes[i]);
        assert(old(out)@ + bytes@.take(i + 1) =~= (old(out)@ + bytes@.take(i as int)).push(
            bytes@[i as int],
        ));
        i += 1;
    }
    assert(bytes@.take(i as int) =~= bytes@);
}

/// Appends numbers of four bytes.
fn push_numbers(out: &mut Vec<u8>, numbers: &Vec<u32>)
    ensures
        final(out)@ == old(out)@ + u32_stream(numbers@),
{
    let mut i: usize = 0;
    assert(old(out)@ + u32_stream(numbers@.take(0)) =~= old(out)@);
    while i < numbers.len()
        invariant
            i <= numbers.len(),
            out@ == old(out)@ + u32_stream(numbers@.take(i as int)),
        decreases numbers.len() - i,
    {
        let v = numbers[i];
        push_u32(out, v);
        proof {
            crate::wire::lemma_u32_stream_push(numbers@.take(i as int), v);
            assert(numbers@.take(i + 1) =~= numbers@.take(i as int).push(v));
            assert(old(out)@ + u32_stream(numbers@.take(i + 1)) =~= (old(out)@ + u32_stream(
                numbers@.take(i as int),
            )) + u32_stream(seq![v]));
        }
        i += 1;
    }
    assert(numbers@.take(i as int) =~= numbers@);
}

/// The components of the centroids, one centroid after the other.
fn flatten(centroids: &[[u32; 14]]) -> (r: Vec<u32>)
    ensures
        r@ == flattened(crate::wire::rows_of(centroids@)),
{
    let mut numbers: Vec<u32> = Vec::new();
    let ghost all = flattened(crate::wire::rows_of(centroids@));
    let mut c: usize = 0;
    while c < centroids.len()
        invariant
            c <= centroids.len(),
            all == flattened(crate::wire::rows_of(centroids@)),
            numbers@ == all.take(14 * c),
        decreases centroids.len() - c,
    {
        let mut d: usize = 0;
        while d < DIM
            invariant
                c < centroids.len(),
                d <= DIM,
                all == flattened(crate::wire::rows_of(centroids@)),
                numbers@ == all.take(14 * c + d),
            decreases DIM - d,
        {
            let ghost at = 14 * c + d;
            assert(at / 14 == c && at % 14 == d);
            assert(all.take(at + 1) =~= all.take(at).push(centroids@[c as int]@[d as int]));
            numbers.push(centroids[c][d]);
            d += 1;
        }
        c += 1;
    }
    assert(all.take(14 * c) =~= all);
    numbers
}

pub proof fn lemma_before_grows(buffers: Seq<Encoded>, a: nat, b: nat)
    requires
        a <= b,
    ensures
        labels_before(buffers, a).len() <= labels_before(buffers, b).len(),
        units_before(buffers, a) <= units_before(buffers, b),
    decreases b,
{
    if a < b {
        lemma_before_grows(buffers, a, (b - 1) as nat);
    }
}

/// The byte stream of an index with these centroids and encoded clusters.
pub fn write_specialist_index(centroids: &[[u32; 14]], buffers: &Vec<ClusterBuffer>) -> (r: Vec<
    u8,
>)
    requires
        centroids.len() == buffers.len(),
        buffers.len() <= u32::MAX,
        labels_before(contents(buffers@), buffers@.len()).len() <= u32::MAX,
        units_before(contents(buffers@), buffers@.len()) <= u32::MAX,
    ensures
        r@ == index_stream(crate::wire::rows_of(centroids@), contents(buffers@)),
{
    let k = buffers.len();
    let ghost encodings = contents(buffers@);
    let mut cluster_sizes: Vec<u32> = Vec::new();
    let mut cluster_offsets: Vec<u32> = Vec::new();
    let mut unit_offsets: Vec<u32> = Vec::new();
    let mut cluster_offset: u32 = 0;
    let mut unit_offset: u32 = 0;
    cluster_offsets.push(cluster_offset);
    unit_offsets.push(unit_offset);
    let mut c: usize = 0;
    while c < k
        invariant
            c <= k == buffers.len(),
            encodings == contents(buffers@),
            labels_before(encodings, k as nat).len() <= u32::MAX,
            units_before(encodings, k as nat) <= u32::MAX,
            cluster_offset == labels_before(encodings, c as nat).len(),
            unit_offset == units_before(encodings, c as nat),
            cluster_sizes@ == sizes(encodings).take(c as int),
            cluster_offsets@ == label_offsets(encodings).take(c + 1),
            unit_offsets@ == panel_offsets(encodings).take(c + 1),
        decreases k - c,
    {
        proof {
            lemma_before_grows(encodings, (c + 1) as nat, k as nat);
            assert(encodings[c as int] == buffers@[c as int]@);
        }
        let size = buffers[c].labels.len() as u32;
        cluster_offset = cluster_offset + size;
        unit_offset = unit_offset + buffers[c].units;
        cluster_sizes.push(size);
        cluster_offsets.push(cluster_offset);
        unit_offsets.push(unit_offset);
        proof {
            assert(sizes(encodings).take(c + 1) =~= sizes(encodings).take(c as int).push(size));
            assert(label_offsets(encodings).take(c + 2) =~= label_offsets(encodings).take(
                c + 1,
            ).push(cluster_offset));
            assert(panel_offsets(encodings).take(c + 2) =~= panel_offsets(encodings).take(
                c + 1,
            ).push(unit_offset));
        }
        c += 1;
    }
    assert(sizes(encodings).take(k as int) =~= sizes(encodings));
    assert(label_offsets(encodings).take(k + 1) =~= label_offsets(encodings));
    assert(panel_offsets(encodings).take(k + 1) =~= panel_offsets(encodings));
    let fields: Vec<u32> = vec![
        INDEX_MAGIC,
        WRITTEN_VERSION,
        cluster_offset,
        DIM as u32,
        k as u32,
        SCALE,
        0,
        0,
    ];
    assert(fields@ =~= header(cluster_offset as nat, k as nat));
    let mut out: Vec<u8> = Vec::new();
    push_numbers(&mut out, &fields);
    assert(out@ =~= u32_stream(fields@));
    push_numbers(&mut out, &flatten(centroids));
    push_numbers(&mut out, &cluster_sizes);
    push_numbers(&mut out, &cluster_offsets);
    push_numbers(&mut out, &unit_offsets);
    let ghost tables = out@;
    let mut i: usize = 0;
    assert(tables + vectors_before(encodings, 0) =~= tables);
    while i < k
        invariant
            i <= k == buffers.len(),
            encodings == contents(buffers@),
            out@ == tables + vectors_before(encodings, i as nat),
        decreases k - i,
    {
        push_bytes(&mut out, &buffers[i].vectors);
        assert(encodings[i as int] == buffers@[i as int]@);
        assert(out@ =~= tables + vectors_before(encodings, (i + 1) as nat));
        i += 1;
    }
    let ghost body = out@;
    let mut j: usize = 0;
    assert(body + labels_before(encodings, 0) =~= body);
    while j < k
        invariant
            j <= k == buffers.len(),
            encodings == contents(buffers@),
            out@ == body + labels_before(encodings, j as nat),
        decreases k - j,
    {
        push_bytes(&mut out, &buffers[j].labels);
        assert(encodings[j as int] == buffers@[j as int]@);
        assert(out@ =~= body + labels_before(encodings, (j + 1) as nat));
        j += 1;
    }
    out
}

/// No centroid is closer than the closest, and of several that are equally close it is the
/// first. Where no distance is under the greatest finite number, it is the first of all.
pub proof fn law_closest(bits: Seq<u32>, n: nat)
    ensures
        ({
            let (key, at) = closest(bits, n);
            &&& key is Some
            &&& forall|i: int| 0 <= i < n ==> !nearer(order_key(#[trigger] bits[i]), key)
            &&& at == 0 || 0 <= at < n
            &&& key != order_key(GREATEST_BITS) ==> 0 <= at < n && order_key(bits[at]) == key
            &&& forall|i: int|
                0 <= i < at ==> order_key(#[trigger] bits[i]) is None || nearer(
                    key,
                    order_key(bits[i]),
                )
        }),
    decreases n,
{
    if n > 0 {
        law_closest(bits, (n - 1) as nat);
        let (before, place) = closest(bits, (n - 1) as nat);
        let (key, at) = closest(bits, n);
        assert forall|i: int| 0 <= i < at implies order_key(#[trigger] bits[i]) is None || nearer(
            key,
            order_key(bits[i]),
        ) by {
            if at == n - 1 {
                assert(!nearer(order_key(bits[i]), before));
            }
        }
    }
}

/// Every vector is in the cluster that it is assigned to, once, and in no other.
pub proof fn law_every_vector_in_one_cluster(assignments: Seq<usize>, c: int, n: nat)
    requires
        n <= assignments.len() <= usize::MAX,
    ensures
        ({
            let members = members_of(assignments, c, n);
            &&& members.no_duplicates()
            &&& forall|i: int|
                0 <= i < members.len() ==> (#[trigger] members[i]) < n && assignments[members[i]
                    as int] == c
            &&& forall|i: int|
                0 <= i < n && #[trigger] assignments[i] == c ==> members.contains(i as usize)
        }),
    decreases n,
{
    if n > 0 {
        let m = (n - 1) as nat;
        law_every_vector_in_one_cluster(assignments, c, m);
        let before = members_of(assignments, c, m);
        let members = members_of(assignments, c, n);
        assert forall|i: int, j: int|
            0 <= i < members.len() && 0 <= j < members.len() && i != j implies members[i]
            != members[j] by {
            assert(i < before.len() ==> before[i] < m);
            assert(j < before.len() ==> before[j] < m);
        }
        assert forall|i: int| 0 <= i < members.len() implies (#[trigger] members[i]) < n
            && assignments[members[i] as int] == c by {
            assert(i < before.len() ==> before[i] < m && assignments[before[i] as int] == c);
        }
        assert forall|i: int| 0 <= i < n && #[trigger] assignments[i] == c implies members.contains(
            i as usize,
        ) by {
            if i < m {
                assert(before.contains(i as usize));
                let j = choose|j: int| 0 <= j < before.len() && before[j] == i as usize;
                assert(members[j] == i as usize);
            } else {
                assert(members[members.len() - 1] == i as usize);
            }
        }
    }
}

/// A vector goes to the cluster whose centroid is nearest, and of several that are equally
/// near to the first, as long as one of the distances is under the greatest finite single
/// precision number. Distances that are no numbers do not count.
pub proof fn law_nearest_centroid(bits: Seq<u32>, n: nat, finite: int)
    requires
        0 <= finite < n <= bits.len(),
        less(bits[finite], 0x7f7f_ffff),
    ensures
        ({
            let at = closest(bits, n).1;
            &&& 0 <= at < n
            &&& is_number(bits[at])
            &&& forall|i: int| 0 <= i < n ==> !less(#[trigger] bits[i], bits[at])
            &&& forall|i: int|
                0 <= i < at && is_number(#[trigger] bits[i]) ==> less(bits[at], bits[i])
        }),
{
    law_closest(bits, n);
    let (key, at) = closest(bits, n);
    crate::single::law_order_of_numbers(bits[finite], 0x7f7f_ffff);
    assert(!nearer(order_key(bits[finite]), key));
    crate::single::law_order_of_numbers(bits[at], bits[at]);
    assert forall|i: int| 0 <= i < n implies !less(#[trigger] bits[i], bits[at]) by {
        crate::single::law_order_of_numbers(bits[i], bits[at]);
        assert(!nearer(order_key(bits[i]), key));
    }
    assert forall|i: int| 0 <= i < at && is_number(#[trigger] bits[i]) implies less(
        bits[at],
        bits[i],
    ) by {
        crate::single::law_order_of_numbers(bits[at], bits[i]);
        crate::single::law_order_of_numbers(bits[i], bits[at]);
    }
}

/// A vector goes to the first cluster where no distance is under the greatest finite single
/// precision number.
pub proof fn law_no_centroid_is_near(bits: Seq<u32>, n: nat)
    requires
        n <= bits.len(),
        forall|i: int| 0 <= i < n ==> !less(#[trigger] bits[i], 0x7f7f_ffff),
    ensures
        closest(bits, n) == (order_key(GREATEST_BITS), 0int),
        closest(bits, n).1 == 0,
    decreases n,
{
    if n > 0 {
        law_no_centroid_is_near(bits, (n - 1) as nat);
        crate::single::law_order_of_numbers(bits[n - 1], 0x7f7f_ffff);
    }
}

/// The centroids have settled where the farthest of their moves, squared, is a number under
/// the single precision number next to a millionth; a smaller move never unsettles them.
pub proof fn law_small_moves_settle(shift: u32, smaller: u32)
    ensures
        settled(shift) <==> less(shift, 0x3586_37bd),
        settled(shift) && less(smaller, shift) ==> settled(smaller),
{
    crate::single::law_order_of_numbers(shift, 0x3586_37bd);
    crate::single::law_order_of_numbers(smaller, shift);
    crate::single::law_order_of_numbers(smaller, 0x3586_37bd);
}

/// The members of a cluster come in the order in which they stand.
pub proof fn law_members_keep_their_order(assignments: Seq<usize>, c: int, n: nat)
    requires
        n <= assignments.len() <= usize::MAX,
    ensures
        forall|i: int, j: int|
            0 <= i < j < members_of(assignments, c, n).len() ==> (#[trigger] members_of(
                assignments,
                c,
                n,
            )[i]) < (#[trigger] members_of(assignments, c, n)[j]),
    decreases n,
{
    if n > 0 {
        let m = (n - 1) as nat;
        law_members_keep_their_order(assignments, c, m);
        law_every_vector_in_one_cluster(assignments, c, m);
    }
}

} // verus!
