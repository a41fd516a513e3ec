//! The inverted-file index: what it holds, how its vectors are laid out, and how a byte
//! stream describes one.
//!
//! A stream is a header of eight numbers (magic, version, number of vectors, dimension,
//! number of clusters, scale and two reserved), the centroids, from version 2 on the
//! bounds of the clusters, their sizes, the offsets of their labels, the offsets of their
//! vectors, the vectors and the labels. Version 1 has no bounds: they are those of the
//! vectors.
use vstd::prelude::*;

verus! {

use crate::wire::{i16_rows, i16s, u32_at, u32_rows, u32s, DIM};

/// `RIVF`, read as a little-endian number.
pub const INDEX_MAGIC: u32 = 0x4656_4952;

/// The version that holds the bounds of the clusters.
pub const INDEX_VERSION: u32 = 2;

/// The bytes of a header.
pub const HEADER_BYTES: usize = 32;

/// The vectors that a panel holds side by side.
pub const LANES: usize = 8;

/// What an index holds. Centroids are single precision numbers, bit for bit.
#[verifier::ext_equal]
pub struct Index {
    pub centroids: Seq<Seq<u32>>,
    pub mins: Seq<Seq<i16>>,
    pub maxs: Seq<Seq<i16>>,
    pub sizes: Seq<u32>,
    pub offsets: Seq<u32>,
    pub panels: Seq<u32>,
    pub units: Seq<i16>,
    pub labels: Seq<u8>,
    pub scale: u32,
}

/// Why a byte stream describes no index.
#[derive(Clone, Copy, Debug, PartialEq, Eq, Structural)]
pub enum IndexError {
    /// Too small to hold a header.
    TooSmall,
    /// The magic is another.
    BadMagic,
    /// The version is unknown.
    UnsupportedVersion(u32),
    /// The dimension is another.
    UnsupportedDimension(u32),
    /// No clusters or no vectors.
    EmptyCounts,
    /// The stream ends before the vectors do.
    UnexpectedEnd,
    /// The stream ends before the labels do.
    MissingLabels,
    /// So many bytes follow the labels.
    TrailingBytes(usize),
    /// The last label offset is not the number of vectors.
    OffsetsMismatch,
    /// A cluster lies outside the vectors, so that its bounds cannot be computed.
    ClusterOutside,
}

/// How many vectors of a cluster of `size` stand in full panels.
pub open spec fn in_panels(size: int) -> int {
    size / 8 * 8
}

impl Index {
    /// Whether the tables agree in their lengths.
    pub open spec fn shaped(self) -> bool {
        &&& self.centroids.len() > 0
        &&& self.mins.len() == self.centroids.len()
        &&& self.maxs.len() == self.centroids.len()
        &&& self.sizes.len() == self.centroids.len()
        &&& self.offsets.len() == self.centroids.len() + 1
        &&& self.panels.len() == self.centroids.len() + 1
        &&& forall|c: int|
            0 <= c < self.centroids.len() ==> (#[trigger] self.centroids[c]).len() == DIM
        &&& forall|c: int| 0 <= c < self.mins.len() ==> (#[trigger] self.mins[c]).len() == DIM
        &&& forall|c: int| 0 <= c < self.maxs.len() ==> (#[trigger] self.maxs[c]).len() == DIM
    }

    /// Whether the vectors and labels of cluster `c` are there.
    pub open spec fn holds(self, c: int) -> bool {
        self.sizes[c] > 0 ==> {
            &&& self.offsets[c] + self.sizes[c] <= self.labels.len()
            &&& self.panels[c] + 14 * self.sizes[c] <= self.units.len()
        }
    }

    /// Whether the vectors and labels of every cluster are there.
    pub open spec fn laid_out(self) -> bool {
        forall|c: int| 0 <= c < self.sizes.len() ==> #[trigger] self.holds(c)
    }

    /// Where component `d` of vector `i` of cluster `c` stands: in a full panel the eight
    /// vectors stand side by side, component by component; the rest of the cluster stands
    /// vector by vector.
    pub open spec fn slot(self, c: int, i: int, d: int) -> int {
        let full = in_panels(self.sizes[c] as int);
        if i < full {
            self.panels[c] + i / 8 * 112 + d * 8 + i % 8
        } else {
            self.panels[c] + full * 14 + (i - full) * 14 + d
        }
    }

    /// Vector `i` of cluster `c`.
    pub open spec fn vector(self, c: int, i: int) -> Seq<i16> {
        Seq::new(DIM as nat, |d: int| self.units[self.slot(c, i, d)])
    }

    /// The label of vector `i` of cluster `c`.
    pub open spec fn label(self, c: int, i: int) -> u8 {
        self.labels[self.offsets[c] + i]
    }

    /// The least component `d` of the first `n` vectors of cluster `c`.
    pub open spec fn least(self, c: int, d: int, n: nat) -> i16
        decreases n,
    {
        if n == 0 {
            i16::MAX
        } else {
            let before = self.least(c, d, (n - 1) as nat);
            let here = self.vector(c, n - 1)[d];
            if here < before {
                here
            } else {
                before
            }
        }
    }

    /// The greatest component `d` of the first `n` vectors of cluster `c`.
    pub open spec fn greatest(self, c: int, d: int, n: nat) -> i16
        decreases n,
    {
        if n == 0 {
            i16::MIN
        } else {
            let before = self.greatest(c, d, (n - 1) as nat);
            let here = self.vector(c, n - 1)[d];
            if here > before {
                here
            } else {
                before
            }
        }
    }

    /// The corner of cluster `c` with the least components.
    pub open spec fn low_corner(self, c: int) -> Seq<i16> {
        Seq::new(DIM as nat, |d: int| self.least(c, d, self.sizes[c] as nat))
    }

    /// The corner of cluster `c` with the greatest components.
    pub open spec fn high_corner(self, c: int) -> Seq<i16> {
        Seq::new(DIM as nat, |d: int| self.greatest(c, d, self.sizes[c] as nat))
    }

    /// The index with the bounds that its vectors give.
    pub open spec fn bounded(self) -> Index {
        Index {
            mins: Seq::new(self.sizes.len(), |c: int| self.low_corner(c)),
            maxs: Seq::new(self.sizes.len(), |c: int| self.high_corner(c)),
            ..self
        }
    }

    /// Whether every vector lies within the bounds of its cluster.
    pub open spec fn encloses(self) -> bool {
        forall|c: int, i: int, d: int|
            0 <= c < self.sizes.len() && 0 <= i < self.sizes[c] && 0 <= d < DIM
                ==> self.mins[c][d] <= (#[trigger] self.vector(c, i)[d]) <= self.maxs[c][d]
    }
}

/// Where the sizes stand in a stream of version `version` with `k` clusters.
pub open spec fn sizes_at(version: u32, k: int) -> int {
    if version == INDEX_VERSION {
        32 + 56 * k + 56 * k
    } else {
        32 + 56 * k
    }
}

/// Where the vectors stand.
pub open spec fn units_at(version: u32, k: int) -> int {
    sizes_at(version, k) + 4 * k + 4 * (k + 1) + 4 * (k + 1)
}

/// What the header says against the stream.
pub open spec fn header_error(data: Seq<u8>) -> Option<IndexError> {
    if data.len() < HEADER_BYTES {
        Some(IndexError::TooSmall)
    } else if u32_at(data, 0) != INDEX_MAGIC {
        Some(IndexError::BadMagic)
    } else if u32_at(data, 4) != INDEX_VERSION && u32_at(data, 4) != 1 {
        Some(IndexError::UnsupportedVersion(u32_at(data, 4)))
    } else if u32_at(data, 12) != DIM {
        Some(IndexError::UnsupportedDimension(u32_at(data, 12)))
    } else if u32_at(data, 16) == 0 || u32_at(data, 8) == 0 {
        Some(IndexError::EmptyCounts)
    } else {
        None
    }
}

/// The tables of a stream with a sound header and `units` components.
pub open spec fn tables_of(data: Seq<u8>, units: int) -> Index {
    let version = u32_at(data, 4);
    let n = u32_at(data, 8) as nat;
    let k = u32_at(data, 16) as nat;
    let sizes = sizes_at(version, k as int);
    let start = units_at(version, k as int);
    Index {
        centroids: u32_rows(data, 32, k),
        mins: if version == INDEX_VERSION {
            i16_rows(data, 32 + 56 * k as int, k)
        } else {
            Seq::empty()
        },
        maxs: if version == INDEX_VERSION {
            i16_rows(data, 32 + 84 * k as int, k)
        } else {
            Seq::empty()
        },
        sizes: u32s(data, sizes, k),
        offsets: u32s(data, sizes + 4 * k, k + 1),
        panels: u32s(data, sizes + 4 * k + 4 * (k + 1), k + 1),
        units: i16s(data, start, units as nat),
        labels: data.subrange(start + 2 * units, start + 2 * units + n),
        scale: u32_at(data, 20),
    }
}

/// The index that a stream describes, or why it describes none.
pub open spec fn index_of(data: Seq<u8>) -> Result<Index, IndexError> {
    let version = u32_at(data, 4);
    let n = u32_at(data, 8) as int;
    let k = u32_at(data, 16) as int;
    let start = units_at(version, k);
    let units = u32_at(data, start - 4) as int;
    let end = start + 2 * units + n;
    let tables = tables_of(data, units);
    if let Some(e) = header_error(data) {
        Err(e)
    } else if data.len() < start || data.len() < start + 2 * units {
        Err(IndexError::UnexpectedEnd)
    } else if data.len() < end {
        Err(IndexError::MissingLabels)
    } else if data.len() > end {
        Err(IndexError::TrailingBytes((data.len() - end) as usize))
    } else if tables.offsets.last() != n {
        Err(IndexError::OffsetsMismatch)
    } else if version == INDEX_VERSION {
        Ok(tables)
    } else if tables.laid_out() {
        Ok(tables.bounded())
    } else {
        Err(IndexError::ClusterOutside)
    }
}

pub proof fn lemma_slot(x: Index, c: int, i: int, d: int)
    requires
        0 <= c < x.sizes.len(),
        0 <= i < x.sizes[c],
        0 <= d < DIM,
        x.panels.len() > c,
        x.holds(c),
    ensures
        x.panels[c] <= x.slot(c, i, d) < x.panels[c] + 14 * x.sizes[c],
        x.slot(c, i, d) < x.units.len(),
{
    let size = x.sizes[c] as int;
    let full = in_panels(size);
    assert(full <= size < full + 8);
    if i < full {
        assert(i / 8 * 8 + 8 <= full);
    }
}

/// The number of components and labels that an index says it has are there, and its
/// tables agree in their lengths.
pub proof fn law_index_is_shaped(data: Seq<u8>)
    ensures
        index_of(data) matches Ok(x) ==> {
            &&& x.shaped()
            &&& x.offsets.last() == x.labels.len()
            &&& x.panels.last() == x.units.len()
            &&& x.labels.len() > 0
            &&& x.centroids.len() == u32_at(data, 16)
            &&& x.labels.len() == u32_at(data, 8)
        },
{
}

pub proof fn lemma_bounds(x: Index, c: int, d: int, n: nat, i: int)
    requires
        0 <= i < n,
    ensures
        x.least(c, d, n) <= x.vector(c, i)[d] <= x.greatest(c, d, n),
    decreases n,
{
    if i < n - 1 {
        lemma_bounds(x, c, d, (n - 1) as nat, i);
    }
}

/// An index of version 1 gets bounds within which every vector of a cluster lies.
pub proof fn law_computed_bounds_enclose(data: Seq<u8>)
    requires
        u32_at(data, 4) == 1,
    ensures
        index_of(data) matches Ok(x) ==> x.encloses() && x.laid_out(),
{
    if let Ok(x) = index_of(data) {
        let k = u32_at(data, 16) as int;
        let t = tables_of(data, u32_at(data, units_at(1, k) - 4) as int);
        assert forall|c: int| 0 <= c < x.sizes.len() implies #[trigger] x.holds(c) by {
            assert(t.holds(c));
        }
        assert forall|c: int, i: int, d: int|
            0 <= c < x.sizes.len() && 0 <= i < x.sizes[c] && 0 <= d < DIM implies x.mins[c][d] <= (
        #[trigger] x.vector(c, i)[d]) <= x.maxs[c][d] by {
            assert(x.vector(c, i)[d] == t.vector(c, i)[d]);
            lemma_bounds(t, c, d, t.sizes[c] as nat, i);
        }
    }
}

} // verus!
