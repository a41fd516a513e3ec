//! What the search for the nearest vectors finds.
//!
//! The clusters whose centroids are nearest are probed, the small ones first. Where the
//! five nearest vectors found are of both kinds, or not near enough, further clusters are
//! scanned, as long as their bounds allow a nearer vector.
use vstd::prelude::*;

verus! {

use crate::distance::{order_key, squared, squared_from_box, stepwise};
use crate::index::{in_panels, Index};
use crate::rounding::round24;
use crate::selection::{keep_all, nearer, ranked, reach};
use crate::wire::DIM;

/// How many vectors the search looks for.
pub const NEIGHBOURS: usize = 5;

/// How many clusters are probed at most, and how many are scanned at most thereafter.
pub const MAX_PROBES: usize = 512;

/// How many clusters are considered at most for the scan after the probes.
pub const MAX_REPAIR_CANDIDATES: usize = 1024;

/// The number of frauds among the nearest from which on they are of both kinds.
pub const REPAIR_MIN: usize = 1;

/// The number of frauds among the nearest up to which they are of both kinds.
pub const REPAIR_MAX: usize = 4;

/// Up to this squared distance the farthest of the nearest is near enough.
pub const CONFIDENT_DISTANCE_LIMIT: i64 = 1_960_000;

/// The distance of the query from vector `i` of cluster `c`: accumulated component by
/// component for a vector in a full panel, summed and then rounded for the others.
pub open spec fn measured(x: Index, c: int, i: int, q: Seq<i16>, fused: bool) -> nat {
    if i < in_panels(x.sizes[c] as int) {
        stepwise(q, x.vector(c, i), DIM as nat, fused)
    } else {
        round24(squared(q, x.vector(c, i), DIM as nat))
    }
}

/// The vectors of cluster `c`, each as its distance from the query and its label.
pub open spec fn entries(x: Index, c: int, q: Seq<i16>, fused: bool) -> Seq<(Option<i64>, u8)> {
    Seq::new(
        x.sizes[c] as nat,
        |i: int| (Some(measured(x, c, i, q, fused) as i64), x.label(c, i)),
    )
}

/// The nearest of `kept` and the vectors of cluster `c`.
pub open spec fn scanned(
    x: Index,
    kept: Seq<(Option<i64>, u8)>,
    c: int,
    q: Seq<i16>,
    fused: bool,
) -> Seq<(Option<i64>, u8)> {
    keep_all(kept, NEIGHBOURS as nat, entries(x, c, q, fused))
}

/// The nearest of `kept` and the vectors of several clusters.
pub open spec fn scanned_all(
    x: Index,
    kept: Seq<(Option<i64>, u8)>,
    clusters: Seq<(i64, usize)>,
    q: Seq<i16>,
    fused: bool,
) -> Seq<(Option<i64>, u8)>
    decreases clusters.len(),
{
    if clusters.len() == 0 {
        kept
    } else {
        scanned(
            x,
            scanned_all(x, kept, clusters.drop_last(), q, fused),
            clusters.last().1 as int,
            q,
            fused,
        )
    }
}

/// How many labels say fraud.
pub open spec fn frauds(s: Seq<(Option<i64>, u8)>) -> nat
    decreases s.len(),
{
    if s.len() == 0 {
        0
    } else {
        frauds(s.drop_last()) + if s.last().1 == 1 {
            1nat
        } else {
            0nat
        }
    }
}

/// Whether the nearest are of both kinds.
pub open spec fn mixed(s: Seq<(Option<i64>, u8)>) -> bool {
    REPAIR_MIN <= frauds(s) <= REPAIR_MAX
}

/// Whether the farthest of the nearest is near enough.
pub open spec fn near_enough(s: Seq<(Option<i64>, u8)>) -> bool {
    match reach(s, NEIGHBOURS as nat) {
        Some(d) => d <= CONFIDENT_DISTANCE_LIMIT,
        None => false,
    }
}

/// How many clusters are probed.
pub open spec fn probe_count(k: nat, n_probes: nat) -> nat {
    let wanted = if n_probes < k {
        n_probes
    } else {
        k
    };
    if wanted < MAX_PROBES {
        wanted
    } else {
        MAX_PROBES as nat
    }
}

/// The clusters with the distances of their centroids.
pub open spec fn by_centroid(bits: Seq<u32>) -> Seq<(Option<i64>, usize)> {
    Seq::new(bits.len(), |c: int| (order_key(bits[c]), c as usize))
}

/// The clusters that are probed, with their sizes.
pub open spec fn with_sizes(x: Index, s: Seq<(Option<i64>, usize)>) -> Seq<(i64, usize)> {
    Seq::new(s.len(), |j: int| (x.sizes[s[j].1 as int] as i64, s[j].1))
}

/// The clusters that are probed, in the order in which they are scanned. `bits` are the
/// distances of the centroids from the query, as single precision numbers.
pub open spec fn probes(x: Index, bits: Seq<u32>, n_probes: nat) -> Seq<(i64, usize)> {
    ranked(
        with_sizes(
            x,
            keep_all(Seq::empty(), probe_count(x.centroids.len(), n_probes), by_centroid(bits)),
        ),
    )
}

/// The distance of the query from the bounds of cluster `c`.
pub open spec fn lower_bound(x: Index, c: int, q: Seq<i16>) -> nat {
    round24(squared_from_box(q, x.mins[c], x.maxs[c], DIM as nat))
}

/// Whether cluster `c` was probed.
pub open spec fn was_probed(probed: Seq<(i64, usize)>, c: int) -> bool {
    exists|j: int| 0 <= j < probed.len() && (#[trigger] probed[j]).1 == c
}

/// Whether cluster `c` may hold a nearer vector than those in `kept`.
pub open spec fn promising(
    x: Index,
    q: Seq<i16>,
    kept: Seq<(Option<i64>, u8)>,
    probed: Seq<(i64, usize)>,
    c: int,
) -> bool {
    &&& x.sizes[c] != 0
    &&& !was_probed(probed, c)
    &&& nearer(Some(lower_bound(x, c, q) as i64), reach(kept, NEIGHBOURS as nat))
}

/// Those of the first `n` clusters that may hold a nearer vector.
pub open spec fn promising_of(
    x: Index,
    q: Seq<i16>,
    kept: Seq<(Option<i64>, u8)>,
    probed: Seq<(i64, usize)>,
    n: nat,
) -> Seq<(Option<i64>, usize)>
    decreases n,
{
    if n == 0 {
        Seq::empty()
    } else {
        let before = promising_of(x, q, kept, probed, (n - 1) as nat);
        if promising(x, q, kept, probed, n - 1) {
            before.push((Some(lower_bound(x, n - 1, q) as i64), (n - 1) as usize))
        } else {
            before
        }
    }
}

/// How many clusters are scanned at most after `probed` of `k` were probed.
pub open spec fn candidate_count(k: nat, probed: nat) -> nat {
    let rest = if k < probed {
        0nat
    } else {
        (k - probed) as nat
    };
    let considered = if rest < MAX_REPAIR_CANDIDATES {
        rest
    } else {
        MAX_REPAIR_CANDIDATES as nat
    };
    if considered < MAX_PROBES {
        considered
    } else {
        MAX_PROBES as nat
    }
}

/// The plain distances of a list.
pub open spec fn plain(s: Seq<(Option<i64>, usize)>) -> Seq<(i64, usize)> {
    Seq::new(s.len(), |j: int| (s[j].0.unwrap_or(0), s[j].1))
}

/// The clusters to scan after the probes, the nearest bounds first.
pub open spec fn candidates(
    x: Index,
    q: Seq<i16>,
    kept: Seq<(Option<i64>, u8)>,
    probed: Seq<(i64, usize)>,
) -> Seq<(i64, usize)> {
    ranked(
        plain(
            keep_all(
                Seq::empty(),
                candidate_count(x.centroids.len(), probed.len()),
                promising_of(x, q, kept, probed, x.centroids.len()),
            ),
        ),
    )
}

/// The nearest after the scan of further clusters, which ends when no nearer vector is to
/// be expected or when those found are of one kind.
pub open spec fn repaired(
    x: Index,
    q: Seq<i16>,
    kept: Seq<(Option<i64>, u8)>,
    rest: Seq<(i64, usize)>,
    fused: bool,
) -> Seq<(Option<i64>, u8)>
    decreases rest.len(),
{
    if rest.len() == 0 || !nearer(Some(rest[0].0), reach(kept, NEIGHBOURS as nat)) {
        kept
    } else {
        let now = scanned(x, kept, rest[0].1 as int, q, fused);
        if mixed(now) {
            repaired(x, q, now, rest.drop_first(), fused)
        } else {
            now
        }
    }
}

/// The nearest of the vectors that the search looks at.
pub open spec fn nearest(
    x: Index,
    q: Seq<i16>,
    bits: Seq<u32>,
    n_probes: nat,
    fused: bool,
) -> Seq<(Option<i64>, u8)> {
    let probed = probes(x, bits, n_probes);
    let kept = scanned_all(x, Seq::empty(), probed, q, fused);
    if !mixed(kept) && near_enough(kept) {
        kept
    } else {
        repaired(x, q, kept, candidates(x, q, kept, probed), fused)
    }
}

/// How many of `rest` are scanned after the probes.
pub open spec fn repair_length(
    x: Index,
    q: Seq<i16>,
    kept: Seq<(Option<i64>, u8)>,
    rest: Seq<(i64, usize)>,
    fused: bool,
) -> nat
    decreases rest.len(),
{
    if rest.len() == 0 || !nearer(Some(rest[0].0), reach(kept, NEIGHBOURS as nat)) {
        0
    } else {
        let now = scanned(x, kept, rest[0].1 as int, q, fused);
        if mixed(now) {
            1 + repair_length(x, q, now, rest.drop_first(), fused)
        } else {
            1
        }
    }
}

/// The clusters that the search looks at, in that order.
pub open spec fn visited(
    x: Index,
    q: Seq<i16>,
    bits: Seq<u32>,
    n_probes: nat,
    fused: bool,
) -> Seq<(i64, usize)> {
    let probed = probes(x, bits, n_probes);
    let kept = scanned_all(x, Seq::empty(), probed, q, fused);
    if !mixed(kept) && near_enough(kept) {
        probed
    } else {
        let rest = candidates(x, q, kept, probed);
        probed + rest.take(repair_length(x, q, kept, rest, fused) as int)
    }
}

/// Whether the vectors and labels of all of `clusters` are there.
pub open spec fn held(x: Index, clusters: Seq<(i64, usize)>) -> bool {
    forall|j: int| 0 <= j < clusters.len() ==> x.holds((#[trigger] clusters[j]).1 as int)
}

/// Whether the clusters that the search looks at are there.
pub open spec fn can_search(
    x: Index,
    q: Seq<i16>,
    bits: Seq<u32>,
    n_probes: nat,
    fused: bool,
) -> bool {
    held(x, visited(x, q, bits, n_probes, fused))
}

pub proof fn lemma_repair_length(
    x: Index,
    q: Seq<i16>,
    kept: Seq<(Option<i64>, u8)>,
    rest: Seq<(i64, usize)>,
    fused: bool,
)
    ensures
        repair_length(x, q, kept, rest, fused) <= rest.len(),
    decreases rest.len(),
{
    if rest.len() > 0 {
        let now = scanned(x, kept, rest[0].1 as int, q, fused);
        lemma_repair_length(x, q, now, rest.drop_first(), fused);
    }
}

/// Distances fit into 38 bits.
pub proof fn lemma_measured_bound(x: Index, c: int, i: int, q: Seq<i16>, fused: bool)
    ensures
        measured(x, c, i, q, fused) < 0x40_0000_0000,
{
    crate::distance::lemma_stepwise_bound(q, x.vector(c, i), DIM as nat, fused);
    crate::distance::lemma_squared_bound(q, x.vector(c, i), DIM as nat);
    let s = squared(q, x.vector(c, i), DIM as nat);
    crate::rounding::lemma_rounding_error(s);
    crate::rounding::lemma_spacing(s);
}

} // verus!
