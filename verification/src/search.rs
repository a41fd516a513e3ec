//! The vector store: an index in memory and the search for the nearest vectors.
use crate::distance::{accumulate, key_of_bits, square_of, square_outside};
use crate::index::{IndexError, HEADER_BYTES, INDEX_MAGIC, INDEX_VERSION, LANES};
use crate::probing::{
    CONFIDENT_DISTANCE_LIMIT, MAX_PROBES, MAX_REPAIR_CANDIDATES, NEIGHBOURS, REPAIR_MAX, REPAIR_MIN,
};
use crate::rounding::round_to_24_bits;
use crate::selection::{is_nearer, sort_by_rank, Shortlist};
use crate::wire::{
    read_i16_rows, read_i16_vec, read_u32_rows, read_u32_vec, read_u8_vec, DIM,
};
use vstd::prelude::*;

verus! {

use crate::distance::{squared, squared_from_box, stepwise};
use crate::index::{header_error, in_panels, index_of, sizes_at, tables_of, units_at, Index};
use crate::probing::{
    by_centroid, can_search, candidates, entries, frauds, held, lower_bound, measured, mixed,
    near_enough, nearest, plain, probes, promising, promising_of, repair_length, repaired, scanned,
    scanned_all, visited, was_probed, with_sizes,
};
use crate::selection::{keep, keep_all};
use crate::wire::{rows_of, u32_at};

/// An index in memory.
pub struct VectorStore {
    centroids: Vec<[u32; 14]>,
    cluster_mins: Vec<[i16; 14]>,
    cluster_maxs: Vec<[i16; 14]>,
    cluster_sizes: Vec<u32>,
    cluster_offsets: Vec<u32>,
    panel_offsets: Vec<u32>,
    vectors_soa: Vec<i16>,
    labels: Vec<u8>,
    scale: u32,
}

impl View for VectorStore {
    type V = Index;

    closed spec fn view(&self) -> Index {
        Index {
            centroids: rows_of(self.centroids@),
            mins: rows_of(self.cluster_mins@),
            maxs: rows_of(self.cluster_maxs@),
            sizes: self.cluster_sizes@,
            offsets: self.cluster_offsets@,
            panels: self.panel_offsets@,
            units: self.vectors_soa@,
            labels: self.labels@,
            scale: self.scale,
        }
    }
}

/// What a header says.
struct IndexHeader {
    version: u32,
    n_vectors: u32,
    n_clusters: u32,
    scale: u32,
}

/// Reads the header and leaves the cursor behind it.
fn read_header(data: &[u8], cursor: &mut usize) -> (r: Result<IndexHeader, IndexError>)
    requires
        *old(cursor) == 0,
    ensures
        match r {
            Ok(h) => {
                &&& header_error(data@) is None
                &&& h.version == u32_at(data@, 4)
                &&& h.n_vectors == u32_at(data@, 8)
                &&& h.n_clusters == u32_at(data@, 16)
                &&& h.scale == u32_at(data@, 20)
                &&& *final(cursor) == HEADER_BYTES
                &&& *final(cursor) <= data.len()
            },
            Err(e) => header_error(data@) == Some(e) && *final(cursor) == if data.len()
                < HEADER_BYTES {
                0int
            } else {
                HEADER_BYTES as int
            },
        },
{
    if data.len() < HEADER_BYTES {
        return Err(IndexError::TooSmall);
    }
    let fields = match read_u32_vec(data, cursor, 8) {
        Ok(fields) => fields,
        Err(_) => return Err(IndexError::TooSmall),
    };
    if fields[0] != INDEX_MAGIC {
        return Err(IndexError::BadMagic);
    }
    if fields[1] != INDEX_VERSION && fields[1] != 1 {
        return Err(IndexError::UnsupportedVersion(fields[1]));
    }
    if fields[3] != DIM as u32 {
        return Err(IndexError::UnsupportedDimension(fields[3]));
    }
    if fields[4] == 0 || fields[2] == 0 {
        return Err(IndexError::EmptyCounts);
    }
    Ok(
        IndexHeader {
            version: fields[1],
            n_vectors: fields[2],
            n_clusters: fields[4],
            scale: fields[5],
        },
    )
}

impl VectorStore {
    /// The number of vectors.
    pub fn len(&self) -> (r: usize)
        ensures
            r == self@.labels.len(),
    {
        self.labels.len()
    }

    /// The number of clusters.
    pub fn n_clusters(&self) -> (r: usize)
        ensures
            r == self@.centroids.len(),
    {
        self.centroids.len()
    }

    /// The centroids, bit for bit.
    pub fn centroids(&self) -> (r: &Vec<[u32; 14]>)
        ensures
            rows_of(r@) == self@.centroids,
    {
        &self.centroids
    }

    /// The least components of the clusters.
    pub fn cluster_mins(&self) -> (r: &Vec<[i16; 14]>)
        ensures
            rows_of(r@) == self@.mins,
    {
        &self.cluster_mins
    }

    /// The greatest components of the clusters.
    pub fn cluster_maxs(&self) -> (r: &Vec<[i16; 14]>)
        ensures
            rows_of(r@) == self@.maxs,
    {
        &self.cluster_maxs
    }

    /// What a component of the value one is quantised to.
    pub fn scale(&self) -> (r: u32)
        ensures
            r == self@.scale,
    {
        self.scale
    }

    /// Whether the vectors and labels of cluster `c` are there.
    fn is_there(&self, c: usize) -> (r: bool)
        requires
            self@.offsets.len() == self@.sizes.len() + 1,
            self@.panels.len() == self@.sizes.len() + 1,
            c < self@.sizes.len(),
        ensures
            r == self@.holds(c as int),
    {
        let size = self.cluster_sizes[c] as u64;
        size == 0 || (self.cluster_offsets[c] as u64 + size <= self.labels.len() as u64
            && self.panel_offsets[c] as u64 + 14 * size <= self.vectors_soa.len() as u64)
    }

    /// Whether the vectors and labels of every cluster are there.
    pub fn is_laid_out(&self) -> (r: bool)
        requires
            self@.offsets.len() == self@.sizes.len() + 1,
            self@.panels.len() == self@.sizes.len() + 1,
        ensures
            r == self@.laid_out(),
    {
        let mut c: usize = 0;
        while c < self.cluster_sizes.len()
            invariant
                self@.offsets.len() == self@.sizes.len() + 1,
                self@.panels.len() == self@.sizes.len() + 1,
                c <= self.cluster_sizes.len(),
                forall|b: int| 0 <= b < c ==> #[trigger] self@.holds(b),
            decreases self.cluster_sizes.len() - c,
        {
            if !self.is_there(c) {
                return false;
            }
            c += 1;
        }
        true
    }

    /// Reads the tables of an index; those of version 1 come without bounds.
    fn read_tables(data: &[u8]) -> (r: Result<(Self, u32), IndexError>)
        ensures
            ({
                let version = u32_at(data@, 4);
                let n = u32_at(data@, 8) as int;
                let start = units_at(version, u32_at(data@, 16) as int);
                let units = u32_at(data@, start - 4) as int;
                let end = start + 2 * units + n;
                let tables = tables_of(data@, units);
                match r {
                    Ok((store, v)) => {
                        &&& header_error(data@) is None
                        &&& data.len() == end
                        &&& tables.offsets.last() == n
                        &&& store@ == tables
                        &&& v == version
                    },
                    Err(e) => {
                        &&& index_of(data@) == Err::<Index, IndexError>(e)
                    },
                }
            }),
    {
        let mut cursor: usize = 0;
        let header = match read_header(data, &mut cursor) {
            Ok(header) => header,
            Err(e) => return Err(e),
        };
        let k = header.n_clusters as usize;
        let centroids = match read_u32_rows(data, &mut cursor, k) {
            Ok(rows) => rows,
            Err(_) => return Err(IndexError::UnexpectedEnd),
        };
        let mut cluster_mins: Vec<[i16; 14]> = Vec::new();
        let mut cluster_maxs: Vec<[i16; 14]> = Vec::new();
        if header.version == INDEX_VERSION {
            cluster_mins =
            match read_i16_rows(data, &mut cursor, k) {
                Ok(rows) => rows,
                Err(_) => return Err(IndexError::UnexpectedEnd),
            };
            cluster_maxs =
            match read_i16_rows(data, &mut cursor, k) {
                Ok(rows) => rows,
                Err(_) => return Err(IndexError::UnexpectedEnd),
            };
        }
        assert(cursor == sizes_at(header.version, k as int));
        assert(k + 1 <= data.len());
        let cluster_sizes = match read_u32_vec(data, &mut cursor, k) {
            Ok(numbers) => numbers,
            Err(_) => return Err(IndexError::UnexpectedEnd),
        };
        let cluster_offsets = match read_u32_vec(data, &mut cursor, k + 1) {
            Ok(numbers) => numbers,
            Err(_) => return Err(IndexError::UnexpectedEnd),
        };
        let panel_offsets = match read_u32_vec(data, &mut cursor, k + 1) {
            Ok(numbers) => numbers,
            Err(_) => return Err(IndexError::UnexpectedEnd),
        };
        assert(cursor == units_at(header.version, k as int));
        let vector_units = panel_offsets[k] as usize;
        assert(vector_units == u32_at(data@, cursor - 4));
        let vectors_soa = match read_i16_vec(data, &mut cursor, vector_units) {
            Ok(numbers) => numbers,
            Err(_) => return Err(IndexError::UnexpectedEnd),
        };
        let labels = match read_u8_vec(data, &mut cursor, header.n_vectors as usize) {
            Ok(labels) => labels,
            Err(_) => return Err(IndexError::MissingLabels),
        };
        if cursor != data.len() {
            return Err(IndexError::TrailingBytes(data.len() - cursor));
        }
        if cluster_offsets[k] != header.n_vectors {
            return Err(IndexError::OffsetsMismatch);
        }
        let store = VectorStore {
            centroids,
            cluster_mins,
            cluster_maxs,
            cluster_sizes,
            cluster_offsets,
            panel_offsets,
            vectors_soa,
            labels,
            scale: header.scale,
        };
        proof {
            let tables = tables_of(data@, vector_units as int);
            if header.version != INDEX_VERSION {
                assert(store@.mins =~= tables.mins);
                assert(store@.maxs =~= tables.maxs);
            }
            assert(store@ =~= tables);
        }
        Ok((store, header.version))
    }

    /// Component `d` of vector `i` of cluster `c`.
    fn component(&self, c: usize, i: usize, d: usize) -> (r: i16)
        requires
            self@.panels.len() == self@.sizes.len() + 1,
            c < self@.sizes.len(),
            i < self@.sizes[c as int],
            d < DIM,
            self@.holds(c as int),
        ensures
            r == self@.vector(c as int, i as int)[d as int],
    {
        let size = self.cluster_sizes[c] as usize;
        let start = self.panel_offsets[c] as usize;
        let full = size / 8 * 8;
        proof {
            crate::index::lemma_slot(self@, c as int, i as int, d as int);
        }
        assert(self@.slot(c as int, i as int, d as int) < self.vectors_soa.len());
        if i < full {
            self.vectors_soa[start + i / 8 * 112 + d * 8 + i % 8]
        } else {
            self.vectors_soa[start + full * 14 + (i - full) * 14 + d]
        }
    }

    /// The corners of cluster `c`.
    fn corners(&self, c: usize) -> (r: ([i16; 14], [i16; 14]))
        requires
            self@.panels.len() == self@.sizes.len() + 1,
            c < self@.sizes.len(),
            self@.holds(c as int),
        ensures
            r.0@ == self@.low_corner(c as int),
            r.1@ == self@.high_corner(c as int),
    {
        let mut low: [i16; 14] = [i16::MAX; 14];
        let mut high: [i16; 14] = [i16::MIN; 14];
        let size = self.cluster_sizes[c] as usize;
        let mut i: usize = 0;
        while i < size
            invariant
                self@.panels.len() == self@.sizes.len() + 1,
                c < self@.sizes.len(),
                self@.holds(c as int),
                i <= size == self@.sizes[c as int],
                forall|d: int|
                    0 <= d < DIM ==> low@[d] == self@.least(c as int, d, i as nat) && high@[d]
                        == self@.greatest(c as int, d, i as nat),
            decreases size - i,
        {
            let mut d: usize = 0;
            while d < DIM
                invariant
                    self@.panels.len() == self@.sizes.len() + 1,
                    c < self@.sizes.len(),
                    self@.holds(c as int),
                    i < size == self@.sizes[c as int],
                    d <= DIM,
                    forall|e: int|
                        0 <= e < d ==> low@[e] == self@.least(c as int, e, (i + 1) as nat)
                            && high@[e] == self@.greatest(c as int, e, (i + 1) as nat),
                    forall|e: int|
                        d <= e < DIM ==> low@[e] == self@.least(c as int, e, i as nat) && high@[e]
                            == self@.greatest(c as int, e, i as nat),
                decreases DIM - d,
            {
                let here = self.component(c, i, d);
                assert(low@[d as int] == self@.least(c as int, d as int, i as nat));
                assert(high@[d as int] == self@.greatest(c as int, d as int, i as nat));
                if here < low[d] {
                    low[d] = here;
                }
                if here > high[d] {
                    high[d] = here;
                }
                d += 1;
            }
            i += 1;
        }
        assert(low@ =~= self@.low_corner(c as int));
        assert(high@ =~= self@.high_corner(c as int));
        (low, high)
    }

    /// The index that a byte stream describes.
    pub fn from_bytes(data: Vec<u8>) -> (r: Result<Self, IndexError>)
        ensures
            match r {
                Ok(store) => index_of(data@) == Ok::<Index, IndexError>(store@)
                    && store@.shaped(),
                Err(e) => index_of(data@) == Err::<Index, IndexError>(e),
            },
    {
        let (mut store, version) = match VectorStore::read_tables(data.as_slice()) {
            Ok(read) => read,
            Err(e) => return Err(e),
        };
        if version == INDEX_VERSION {
            return Ok(store);
        }
        if !store.is_laid_out() {
            return Err(IndexError::ClusterOutside);
        }
        let ghost tables = store@;
        let mut mins: Vec<[i16; 14]> = Vec::new();
        let mut maxs: Vec<[i16; 14]> = Vec::new();
        let mut c: usize = 0;
        while c < store.cluster_sizes.len()
            invariant
                store@ == tables,
                tables.laid_out(),
                tables.panels.len() == tables.sizes.len() + 1,
                c <= store.cluster_sizes.len(),
                mins.len() == c,
                maxs.len() == c,
                forall|b: int|
                    0 <= b < c ==> (#[trigger] mins@[b])@ == tables.low_corner(b),
                forall|b: int|
                    0 <= b < c ==> (#[trigger] maxs@[b])@ == tables.high_corner(b),
            decreases store.cluster_sizes.len() - c,
        {
            assert(tables.holds(c as int));
            let (low, high) = store.corners(c);
            mins.push(low);
            maxs.push(high);
            c += 1;
        }
        store.cluster_mins = mins;
        store.cluster_maxs = maxs;
        proof {
            assert(store@.mins =~= tables.bounded().mins);
            assert(store@.maxs =~= tables.bounded().maxs);
            assert(store@ =~= tables.bounded());
        }
        Ok(store)
    }
}

/// How many labels say fraud.
pub fn fraud_count(list: &Shortlist<u8>) -> (r: usize)
    ensures
        r == frauds(list@),
        r <= list@.len(),
{
    let mut count: usize = 0;
    let mut i: usize = 0;
    while i < list.len()
        invariant
            i <= list@.len(),
            count == frauds(list@.take(i as int)),
            count <= i,
        decreases list@.len() - i,
    {
        assert(list@.take(i + 1).drop_last() =~= list@.take(i as int));
        if list.get(i).1 == 1 {
            count += 1;
        }
        i += 1;
    }
    assert(list@.take(i as int) =~= list@);
    count
}

/// Whether the nearest are of both kinds.
fn is_mixed(list: &Shortlist<u8>) -> (r: bool)
    ensures
        r == mixed(list@),
{
    let count = fraud_count(list);
    REPAIR_MIN <= count && count <= REPAIR_MAX
}

/// Whether the farthest of the nearest is near enough.
fn is_near_enough(list: &Shortlist<u8>) -> (r: bool)
    requires
        list.wf(),
        list.capacity() == NEIGHBOURS,
    ensures
        r == near_enough(list@),
{
    match list.max_dist() {
        Some(d) => d <= CONFIDENT_DISTANCE_LIMIT,
        None => false,
    }
}

proof fn lemma_keep_next(
    kept: Seq<(Option<i64>, u8)>,
    cap: nat,
    items: Seq<(Option<i64>, u8)>,
    i: int,
)
    requires
        0 <= i < items.len(),
    ensures
        keep_all(kept, cap, items.take(i + 1)) == keep(
            keep_all(kept, cap, items.take(i)),
            cap,
            items[i],
        ),
{
    assert(items.take(i + 1).drop_last() =~= items.take(i));
}

impl VectorStore {
    /// Whether cluster `c` can be scanned.
    spec fn scannable(&self, c: int) -> bool {
        &&& self@.shaped()
        &&& 0 <= c < self@.sizes.len()
        &&& self@.holds(c)
    }

    /// The distances of the query from the eight vectors of a full panel of cluster `c`.
    fn panel_distance(&self, c: usize, panel: usize, query: &[i16; 14], fused: bool) -> (r: [u64;
        8])
        requires
            self.scannable(c as int),
            panel < self@.sizes[c as int] / 8,
        ensures
            forall|lane: int|
                0 <= lane < 8 ==> #[trigger] r@[lane] == measured(
                    self@,
                    c as int,
                    panel * 8 + lane,
                    query@,
                    fused,
                ) && r@[lane] < 0x40_0000_0000,
    {
        let base = self.panel_offsets[c] as usize;
        let mut dist: [u64; 8] = [0; 8];
        let ghost first = panel * 8;
        let mut dim: usize = 0;
        while dim < DIM
            invariant
                self.scannable(c as int),
                panel < self@.sizes[c as int] / 8,
                base == self@.panels[c as int],
                first == panel * 8,
                dim <= DIM,
                forall|lane: int|
                    0 <= lane < 8 ==> #[trigger] dist@[lane] == stepwise(
                        query@,
                        self@.vector(c as int, first + lane),
                        dim as nat,
                        fused,
                    ) && dist@[lane] <= dim * 0x2_0000_0000,
            decreases DIM - dim,
        {
            let q = query[dim];
            let mut lane: usize = 0;
            while lane < LANES
                invariant
                    self.scannable(c as int),
                    panel < self@.sizes[c as int] / 8,
                    base == self@.panels[c as int],
                    first == panel * 8,
                    dim < DIM,
                    q == query@[dim as int],
                    lane <= LANES,
                    forall|l: int|
                        0 <= l < lane ==> #[trigger] dist@[l] == stepwise(
                            query@,
                            self@.vector(c as int, first + l),
                            (dim + 1) as nat,
                            fused,
                        ) && dist@[l] <= (dim + 1) * 0x2_0000_0000,
                    forall|l: int|
                        lane <= l < 8 ==> #[trigger] dist@[l] == stepwise(
                            query@,
                            self@.vector(c as int, first + l),
                            dim as nat,
                            fused,
                        ) && dist@[l] <= dim * 0x2_0000_0000,
                decreases LANES - lane,
            {
                proof {
                    crate::index::lemma_slot(self@, c as int, first + lane, dim as int);
                    assert((first + lane) / 8 == panel && (first + lane) % 8 == lane);
                    assert(self@.slot(c as int, first + lane, dim as int) == base + panel * 112
                        + dim * 8 + lane);
                    assert(self@.slot(c as int, first + lane, dim as int)
                        < self.vectors_soa.len());
                    assert(dist@[lane as int] <= dim * 0x2_0000_0000);
                }
                let v = self.vectors_soa[base + panel * 112 + dim * 8 + lane];
                assert(v == self@.vector(c as int, first + lane)[dim as int]);
                dist[lane] = accumulate(dist[lane], square_of(q, v), fused);
                lane += 1;
            }
            dim += 1;
        }
        dist
    }

    /// The distance of the query from vector `i` of cluster `c`, one behind the full
    /// panels.
    fn tail_distance(&self, c: usize, i: usize, query: &[i16; 14]) -> (r: u64)
        requires
            self.scannable(c as int),
            in_panels(self@.sizes[c as int] as int) <= i < self@.sizes[c as int],
        ensures
            forall|fused: bool|
                r == #[trigger] measured(self@, c as int, i as int, query@, fused),
            r < 0x40_0000_0000,
    {
        let mut sum: u64 = 0;
        let mut dim: usize = 0;
        let ghost vector = self@.vector(c as int, i as int);
        while dim < DIM
            invariant
                self.scannable(c as int),
                in_panels(self@.sizes[c as int] as int) <= i < self@.sizes[c as int],
                vector == self@.vector(c as int, i as int),
                dim <= DIM,
                sum == squared(query@, vector, dim as nat),
                sum <= dim * 0x1_0000_0000,
            decreases DIM - dim,
        {
            let v = self.component(c, i, dim);
            sum = sum + square_of(query[dim], v);
            dim += 1;
        }
        proof {
            crate::probing::lemma_measured_bound(self@, c as int, i as int, query@, true);
        }
        round_to_24_bits(sum)
    }

    /// Offers the vectors of cluster `c` to the list of the nearest.
    fn scan_cluster(&self, c: usize, query: &[i16; 14], fused: bool, neighbors: &mut Shortlist<u8>)
        requires
            self.scannable(c as int),
            old(neighbors).wf(),
            old(neighbors).capacity() == NEIGHBOURS,
        ensures
            final(neighbors).wf(),
            final(neighbors).capacity() == NEIGHBOURS,
            final(neighbors)@ == scanned(self@, old(neighbors)@, c as int, query@, fused),
    {
        let size = self.cluster_sizes[c] as usize;
        let labels = self.cluster_offsets[c] as usize;
        let full_panels = size / 8;
        let ghost items = entries(self@, c as int, query@, fused);
        let mut panel: usize = 0;
        assert(items.take(0) =~= Seq::empty());
        while panel < full_panels
            invariant
                self.scannable(c as int),
                size == self@.sizes[c as int],
                labels == self@.offsets[c as int],
                items == entries(self@, c as int, query@, fused),
                panel <= full_panels == size / 8,
                neighbors.wf(),
                neighbors.capacity() == NEIGHBOURS,
                neighbors@ == keep_all(old(neighbors)@, NEIGHBOURS as nat, items.take(panel * 8)),
            decreases full_panels - panel,
        {
            let dist = self.panel_distance(c, panel, query, fused);
            let mut lane: usize = 0;
            while lane < LANES
                invariant
                    self.scannable(c as int),
                    size == self@.sizes[c as int],
                    labels == self@.offsets[c as int],
                    items == entries(self@, c as int, query@, fused),
                    panel < full_panels == size / 8,
                    lane <= LANES,
                    neighbors.wf(),
                    neighbors.capacity() == NEIGHBOURS,
                    neighbors@ == keep_all(
                        old(neighbors)@,
                        NEIGHBOURS as nat,
                        items.take(panel * 8 + lane),
                    ),
                    forall|l: int|
                        0 <= l < 8 ==> #[trigger] dist@[l] == measured(
                            self@,
                            c as int,
                            panel * 8 + l,
                            query@,
                            fused,
                        ) && dist@[l] < 0x40_0000_0000,
                decreases LANES - lane,
            {
                let d = dist[lane];
                assert(labels + panel * 8 + lane < self.labels.len());
                proof {
                    lemma_keep_next(
                        old(neighbors)@,
                        NEIGHBOURS as nat,
                        items,
                        panel * 8 + lane,
                    );
                }
                neighbors.push(Some(d as i64), self.labels[labels + panel * 8 + lane]);
                lane += 1;
            }
            panel += 1;
        }
        let mut i = full_panels * 8;
        while i < size
            invariant
                self.scannable(c as int),
                size == self@.sizes[c as int],
                labels == self@.offsets[c as int],
                items == entries(self@, c as int, query@, fused),
                in_panels(size as int) <= i <= size,
                neighbors.wf(),
                neighbors.capacity() == NEIGHBOURS,
                neighbors@ == keep_all(old(neighbors)@, NEIGHBOURS as nat, items.take(i as int)),
            decreases size - i,
        {
            let d = self.tail_distance(c, i, query);
            assert(labels + i < self.labels.len());
            proof {
                assert(d == measured(self@, c as int, i as int, query@, fused));
                lemma_keep_next(old(neighbors)@, NEIGHBOURS as nat, items, i as int);
            }
            neighbors.push(Some(d as i64), self.labels[labels + i]);
            i += 1;
        }
        assert(items.take(size as int) =~= items);
    }

    /// The distance of the query from the bounds of cluster `c`.
    fn cluster_lower_bound(&self, c: usize, query: &[i16; 14]) -> (r: u64)
        requires
            self@.shaped(),
            c < self@.centroids.len(),
        ensures
            r == lower_bound(self@, c as int, query@),
            r < 0x40_0000_0000,
    {
        let mut sum: u64 = 0;
        let mut dim: usize = 0;
        while dim < DIM
            invariant
                self@.shaped(),
                c < self@.centroids.len(),
                dim <= DIM,
                sum == squared_from_box(
                    query@,
                    self@.mins[c as int],
                    self@.maxs[c as int],
                    dim as nat,
                ),
                sum <= dim * 0x1_0000_0000,
            decreases DIM - dim,
        {
            sum =
            sum + square_outside(query[dim], self.cluster_mins[c][dim], self.cluster_maxs[c][dim]);
            dim += 1;
        }
        proof {
            crate::rounding::lemma_rounding_error(sum as nat);
            crate::rounding::lemma_spacing(sum as nat);
        }
        round_to_24_bits(sum)
    }

    /// The clusters to probe, in the order in which they are scanned.
    fn choose_probes(&self, centroid_distances: &[u32], n_probes: usize) -> (r: Vec<(i64, usize)>)
        requires
            self@.shaped(),
            centroid_distances.len() == self@.centroids.len(),
        ensures
            r@ == probes(self@, centroid_distances@, n_probes as nat),
            forall|j: int| 0 <= j < r.len() ==> (#[trigger] r@[j]).1 < self@.centroids.len(),
    {
        let k = self.centroids.len();
        let wanted = if n_probes < k {
            n_probes
        } else {
            k
        };
        let cap = if wanted < MAX_PROBES {
            wanted
        } else {
            MAX_PROBES
        };
        let ghost all = by_centroid(centroid_distances@);
        let mut top: Shortlist<usize> = Shortlist::new(cap);
        let mut c: usize = 0;
        assert(all.take(0) =~= Seq::empty());
        while c < k
            invariant
                k == self@.centroids.len() == centroid_distances.len(),
                all == by_centroid(centroid_distances@),
                c <= k,
                top.wf(),
                top.capacity() == cap,
                top@ == keep_all(Seq::empty(), cap as nat, all.take(c as int)),
            decreases k - c,
        {
            assert(all.take(c + 1).drop_last() =~= all.take(c as int));
            top.push(key_of_bits(centroid_distances[c]), c);
            c += 1;
        }
        assert(all.take(k as int) =~= all);
        proof {
            crate::selection::law_kept_were_offered(cap as nat, all);
        }
        let mut sized: Vec<(i64, usize)> = Vec::new();
        let mut j: usize = 0;
        while j < top.len()
            invariant
                self@.shaped(),
                k == self@.centroids.len(),
                j <= top@.len(),
                sized.len() == j,
                all == by_centroid(centroid_distances@),
                all.len() == k,
                forall|i: int| 0 <= i < top@.len() ==> all.contains(#[trigger] top@[i]),
                forall|i: int|
                    0 <= i < j ==> #[trigger] sized@[i] == (
                        self@.sizes[top@[i].1 as int] as i64,
                        top@[i].1,
                    ) && sized@[i].1 < k,
            decreases top@.len() - j,
        {
            assert(all.contains(top@[j as int]));
            let chosen = top.get(j).1;
            sized.push((self.cluster_sizes[chosen] as i64, chosen));
            j += 1;
        }
        assert(sized@ =~= with_sizes(self@, top@));
        let order = sort_by_rank(&sized);
        proof {
            assert forall|j: int| 0 <= j < order.len() implies (#[trigger] order@[j]).1
                < self@.centroids.len() by {
                crate::selection::lemma_ranked_members(sized@, j);
                let i = choose|i: int| 0 <= i < sized@.len() && sized@[i] == order@[j];
                assert(sized@[i].1 < k);
            }
        }
        order
    }

    /// The clusters to scan after the probes, the nearest bounds first.
    fn choose_candidates(
        &self,
        query: &[i16; 14],
        probed: &Vec<(i64, usize)>,
        neighbors: &Shortlist<u8>,
    ) -> (r: Vec<(i64, usize)>)
        requires
            self@.shaped(),
            neighbors.wf(),
            neighbors.capacity() == NEIGHBOURS,
        ensures
            r@ == candidates(self@, query@, neighbors@, probed@),
            forall|j: int| 0 <= j < r.len() ==> (#[trigger] r@[j]).1 < self@.centroids.len(),
    {
        let k = self.centroids.len();
        let rest = if k < probed.len() {
            0
        } else {
            k - probed.len()
        };
        let considered = if rest < MAX_REPAIR_CANDIDATES {
            rest
        } else {
            MAX_REPAIR_CANDIDATES
        };
        let cap = if considered < MAX_PROBES {
            considered
        } else {
            MAX_PROBES
        };
        let limit = neighbors.max_dist();
        let ghost mut seen: Seq<(Option<i64>, usize)> = Seq::empty();
        let mut top: Shortlist<usize> = Shortlist::new(cap);
        let mut c: usize = 0;
        while c < k
            invariant
                self@.shaped(),
                k == self@.centroids.len(),
                c <= k,
                limit == crate::selection::reach(neighbors@, NEIGHBOURS as nat),
                top.wf(),
                top.capacity() == cap,
                seen == promising_of(self@, query@, neighbors@, probed@, c as nat),
                top@ == keep_all(Seq::empty(), cap as nat, seen),
                forall|i: int|
                    0 <= i < seen.len() ==> (#[trigger] seen[i]).1 < k && seen[i].0 is Some,
            decreases k - c,
        {
            let bound = self.cluster_lower_bound(c, query) as i64;
            if self.cluster_sizes[c] != 0 && !holds_cluster(probed, c) && is_nearer(
                Some(bound),
                limit,
            ) {
                assert(promising(self@, query@, neighbors@, probed@, c as int));
                proof {
                    let grown = seen.push((Some(bound), c));
                    assert(grown.drop_last() =~= seen);
                    seen = grown;
                }
                top.push(Some(bound), c);
            } else {
                assert(!promising(self@, query@, neighbors@, probed@, c as int));
            }
            c += 1;
        }
        proof {
            crate::selection::law_kept_were_offered(cap as nat, seen);
        }
        let mut bounds: Vec<(i64, usize)> = Vec::new();
        let mut j: usize = 0;
        while j < top.len()
            invariant
                j <= top@.len(),
                bounds.len() == j,
                k == self@.centroids.len(),
                forall|i: int| 0 <= i < top@.len() ==> seen.contains(#[trigger] top@[i]),
                forall|i: int|
                    0 <= i < seen.len() ==> (#[trigger] seen[i]).1 < k && seen[i].0 is Some,
                forall|i: int|
                    0 <= i < j ==> #[trigger] bounds@[i] == (top@[i].0.unwrap_or(0), top@[i].1)
                        && bounds@[i].1 < k,
            decreases top@.len() - j,
        {
            assert(seen.contains(top@[j as int]));
            let item = top.get(j);
            let bound: i64 = match item.0 {
                Some(d) => d,
                None => 0,
            };
            bounds.push((bound, item.1));
            j += 1;
        }
        assert(bounds@ =~= plain(top@));
        let order = sort_by_rank(&bounds);
        proof {
            assert forall|j: int| 0 <= j < order.len() implies (#[trigger] order@[j]).1
                < self@.centroids.len() by {
                crate::selection::lemma_ranked_members(bounds@, j);
                let i = choose|i: int| 0 <= i < bounds@.len() && bounds@[i] == order@[j];
                assert(bounds@[i].1 < k);
            }
        }
        order
    }

    /// Scans further clusters where the nearest are of both kinds or not near enough. Stops
    /// at a cluster that is not there, and tells so.
    fn repair_ambiguous(
        &self,
        query: &[i16; 14],
        probed: &Vec<(i64, usize)>,
        fused: bool,
        neighbors: &mut Shortlist<u8>,
    ) -> (r: bool)
        requires
            self@.shaped(),
            old(neighbors).wf(),
            old(neighbors).capacity() == NEIGHBOURS,
        ensures
            final(neighbors).wf(),
            final(neighbors).capacity() == NEIGHBOURS,
            ({
                let kept = old(neighbors)@;
                let rest = candidates(self@, query@, kept, probed@);
                let length = repair_length(self@, query@, kept, rest, fused);
                if !mixed(kept) && near_enough(kept) {
                    r && final(neighbors)@ == kept
                } else {
                    &&& r == held(self@, rest.take(length as int))
                    &&& r ==> final(neighbors)@ == repaired(self@, query@, kept, rest, fused)
                }
            }),
    {
        if !is_mixed(neighbors) && is_near_enough(neighbors) {
            return true;
        }
        let rest = self.choose_candidates(query, probed, neighbors);
        let ghost goal = repaired(self@, query@, neighbors@, rest@, fused);
        let ghost length = repair_length(self@, query@, neighbors@, rest@, fused);
        proof {
            crate::probing::lemma_repair_length(self@, query@, neighbors@, rest@, fused);
        }
        let mut j: usize = 0;
        assert(rest@.skip(0) =~= rest@);
        while j < rest.len()
            invariant_except_break
                goal == repaired(self@, query@, neighbors@, rest@.skip(j as int), fused),
                length == j + repair_length(
                    self@,
                    query@,
                    neighbors@,
                    rest@.skip(j as int),
                    fused,
                ),
                forall|i: int| 0 <= i < j ==> self@.holds((#[trigger] rest@[i]).1 as int),
            invariant
                self@.shaped(),
                j <= rest.len(),
                length <= rest.len(),
                length == repair_length(self@, query@, old(neighbors)@, rest@, fused),
                rest@ == candidates(self@, query@, old(neighbors)@, probed@),
                mixed(old(neighbors)@) || !near_enough(old(neighbors)@),
                forall|i: int|
                    0 <= i < rest.len() ==> (#[trigger] rest@[i]).1 < self@.centroids.len(),
                neighbors.wf(),
                neighbors.capacity() == NEIGHBOURS,
            ensures
                goal == neighbors@,
                held(self@, rest@.take(length as int)),
            decreases rest.len() - j,
        {
            assert(rest@.skip(j as int)[0] == rest@[j as int]);
            assert(rest@.skip(j as int).drop_first() =~= rest@.skip(j + 1));
            let (bound, c) = rest[j];
            if !is_nearer(Some(bound), neighbors.max_dist()) {
                break;
            }
            if !self.is_there(c) {
                assert(rest@.take(length as int)[j as int] == rest@[j as int]);
                return false;
            }
            self.scan_cluster(c, query, fused, neighbors);
            if !is_mixed(neighbors) {
                break;
            }
            j += 1;
        }
        true
    }

    /// The nearest of the vectors that the search looks at; `None` where it comes to a
    /// cluster that is not there.
    fn search(
        &self,
        query: &[i16; 14],
        centroid_distances: &[u32],
        n_probes: usize,
        fused: bool,
    ) -> (r: Option<Shortlist<u8>>)
        requires
            self@.shaped(),
            centroid_distances.len() == self@.centroids.len(),
        ensures
            r is Some <==> can_search(
                self@,
                query@,
                centroid_distances@,
                n_probes as nat,
                fused,
            ),
            r matches Some(found) ==> {
                &&& found.wf()
                &&& found.capacity() == NEIGHBOURS
                &&& found@ == nearest(self@, query@, centroid_distances@, n_probes as nat, fused)
            },
    {
        let probed = self.choose_probes(centroid_distances, n_probes);
        let ghost all = visited(self@, query@, centroid_distances@, n_probes as nat, fused);
        assert(forall|i: int| 0 <= i < probed.len() ==> #[trigger] all[i] == probed@[i]);
        let mut neighbors: Shortlist<u8> = Shortlist::new(NEIGHBOURS);
        let mut j: usize = 0;
        assert(probed@.take(0) =~= Seq::empty());
        while j < probed.len()
            invariant
                self@.shaped(),
                j <= probed.len(),
                all == visited(self@, query@, centroid_distances@, n_probes as nat, fused),
                probed.len() <= all.len(),
                forall|i: int| 0 <= i < probed.len() ==> #[trigger] all[i] == probed@[i],
                forall|i: int|
                    0 <= i < probed.len() ==> (#[trigger] probed@[i]).1 < self@.centroids.len(),
                forall|i: int| 0 <= i < j ==> self@.holds((#[trigger] probed@[i]).1 as int),
                neighbors.wf(),
                neighbors.capacity() == NEIGHBOURS,
                neighbors@ == scanned_all(
                    self@,
                    Seq::empty(),
                    probed@.take(j as int),
                    query@,
                    fused,
                ),
            decreases probed.len() - j,
        {
            assert(probed@.take(j + 1).drop_last() =~= probed@.take(j as int));
            let c = probed[j].1;
            if !self.is_there(c) {
                assert(all[j as int] == probed@[j as int]);
                return None;
            }
            self.scan_cluster(c, query, fused, &mut neighbors);
            j += 1;
        }
        assert(probed@.take(j as int) =~= probed@);
        let ghost kept = neighbors@;
        let ghost rest = candidates(self@, query@, kept, probed@);
        let ghost more = rest.take(
            repair_length(self@, query@, kept, rest, fused) as int,
        );
        let whole = self.repair_ambiguous(query, &probed, fused, &mut neighbors);
        proof {
            assert(held(self@, probed@));
            if mixed(kept) || !near_enough(kept) {
                crate::probing::lemma_repair_length(self@, query@, kept, rest, fused);
                assert(all == probed@ + more);
                assert forall|i: int| 0 <= i < more.len() implies #[trigger] more[i]
                    == all[probed@.len() + i] by {}
            }
        }
        if whole {
            Some(neighbors)
        } else {
            None
        }
    }

    /// Whether the clusters that a search looks at are there: those that the index does not
    /// hold matter only to a search that comes to them.
    pub fn can_answer(
        &self,
        query: &[i16; 14],
        centroid_distances: &[u32],
        n_probes: usize,
        fused: bool,
    ) -> (r: bool)
        requires
            self@.shaped(),
            centroid_distances.len() == self@.centroids.len(),
        ensures
            r == can_search(self@, query@, centroid_distances@, n_probes as nat, fused),
    {
        self.search(query, centroid_distances, n_probes, fused).is_some()
    }

    /// The nearest of the vectors that the search looks at.
    fn find_top5_i16(
        &self,
        query: &[i16; 14],
        centroid_distances: &[u32],
        n_probes: usize,
        fused: bool,
    ) -> (r: Shortlist<u8>)
        requires
            self@.shaped(),
            centroid_distances.len() == self@.centroids.len(),
            can_search(self@, query@, centroid_distances@, n_probes as nat, fused),
        ensures
            r.wf(),
            r.capacity() == NEIGHBOURS,
            r@ == nearest(self@, query@, centroid_distances@, n_probes as nat, fused),
    {
        self.search(query, centroid_distances, n_probes, fused).unwrap()
    }

    /// How many of the five nearest vectors are frauds. `centroid_distances` are the
    /// squared distances of the centroids from the query, as the bits of single precision
    /// numbers; `fused` says whether the machine multiplies and adds in one step.
    pub fn fraud_count_nearest_i16(
        &self,
        query: &[i16; 14],
        centroid_distances: &[u32],
        n_probes: usize,
        fused: bool,
    ) -> (r: usize)
        requires
            self@.shaped(),
            centroid_distances.len() == self@.centroids.len(),
            can_search(self@, query@, centroid_distances@, n_probes as nat, fused),
        ensures
            r == frauds(nearest(self@, query@, centroid_distances@, n_probes as nat, fused)),
            r <= NEIGHBOURS,
    {
        let neighbors = self.find_top5_i16(query, centroid_distances, n_probes, fused);
        fraud_count(&neighbors)
    }

    /// Which of the five nearest vectors are frauds. How many are asked for does not
    /// matter.
    pub fn find_k_nearest(
        &self,
        query: &[i16; 14],
        _k: usize,
        centroid_distances: &[u32],
        n_probes: usize,
        fused: bool,
    ) -> (r: Vec<bool>)
        requires
            self@.shaped(),
            centroid_distances.len() == self@.centroids.len(),
            can_search(self@, query@, centroid_distances@, n_probes as nat, fused),
        ensures
            ({
                let found = nearest(self@, query@, centroid_distances@, n_probes as nat, fused);
                &&& r.len() == found.len()
                &&& forall|i: int| 0 <= i < r.len() ==> #[trigger] r@[i] == (found[i].1 == 1)
            }),
    {
        let neighbors = self.find_top5_i16(query, centroid_distances, n_probes, fused);
        let mut labels: Vec<bool> = Vec::new();
        let mut i: usize = 0;
        while i < neighbors.len()
            invariant
                i <= neighbors@.len(),
                labels.len() == i,
                forall|j: int| 0 <= j < i ==> #[trigger] labels@[j] == (neighbors@[j].1 == 1),
            decreases neighbors@.len() - i,
        {
            labels.push(neighbors.get(i).1 == 1);
            i += 1;
        }
        labels
    }
}

/// Whether cluster `c` was probed.
fn holds_cluster(probed: &Vec<(i64, usize)>, c: usize) -> (r: bool)
    ensures
        r == was_probed(probed@, c as int),
{
    let mut i: usize = 0;
    while i < probed.len()
        invariant
            i <= probed.len(),
            forall|j: int| 0 <= j < i ==> (#[trigger] probed@[j]).1 != c,
        decreases probed.len() - i,
    {
        if probed[i].1 == c {
            return true;
        }
        i += 1;
    }
    false
}

} // verus!
