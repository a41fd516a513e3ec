//! Which clusters a search looks at, and when it goes on to further ones, said of the index
//! and the distances that it is given.
use vstd::prelude::*;

verus! {

use crate::distance::squared;
use crate::index::Index;
use crate::probing::{
    by_centroid, candidate_count, candidates, entries, frauds, lower_bound, mixed, near_enough,
    nearest, plain, probe_count, probes, promising, promising_of, repair_length, repaired, scanned,
    scanned_all, visited, was_probed, with_sizes,
};
use crate::search_laws::{entries_of, within};
use crate::selection::{farthest, keep_all, nearer, ranked, reach};
use crate::single::{is_number, less};

/// The least of three numbers.
pub open spec fn least_of_three(a: int, b: int, c: int) -> int {
    if a <= b && a <= c {
        a
    } else if b <= c {
        b
    } else {
        c
    }
}

/// Whether cluster `c` is among `clusters`.
pub open spec fn among(clusters: Seq<(i64, usize)>, c: int) -> bool {
    exists|j: int| 0 <= j < clusters.len() && (#[trigger] clusters[j]).1 == c
}

proof fn lemma_probed_first(x: Index, q: Seq<i16>, bits: Seq<u32>, n_probes: nat, fused: bool)
    requires
        bits.len() == x.centroids.len(),
        bits.len() <= usize::MAX,
    ensures
        ({
            let seen = visited(x, q, bits, n_probes, fused);
            let m = least_of_three(n_probes as int, x.centroids.len() as int, 512);
            &&& probes(x, bits, n_probes).len() == m
            &&& m <= seen.len()
            &&& seen.take(m) == probes(x, bits, n_probes)
        }),
{
    let probed = probes(x, bits, n_probes);
    let kept = scanned_all(x, Seq::empty(), probed, q, fused);
    crate::search_laws::lemma_probes(x, bits, n_probes);
    crate::probing::lemma_repair_length(
        x,
        q,
        kept,
        candidates(x, q, kept, probed),
        fused,
    );
    let seen = visited(x, q, bits, n_probes, fused);
    assert(seen.take(probed.len() as int) =~= probed);
}

/// A search begins with the clusters whose centroids are nearest: it looks at as many as it
/// may probe, or at all of them, and at no more than 512, and the centroid of no other
/// cluster is nearer than that of one of these. The distances of the centroids are given as
/// single precision numbers.
pub proof fn law_nearest_centroids_are_probed(
    x: Index,
    q: Seq<i16>,
    bits: Seq<u32>,
    n_probes: nat,
    fused: bool,
)
    requires
        bits.len() == x.centroids.len(),
        bits.len() <= usize::MAX,
        forall|c: int| 0 <= c < bits.len() ==> is_number(#[trigger] bits[c]),
    ensures
        ({
            let seen = visited(x, q, bits, n_probes, fused);
            let m = least_of_three(n_probes as int, x.centroids.len() as int, 512);
            &&& 0 <= m <= seen.len()
            &&& forall|j: int| 0 <= j < m ==> (#[trigger] seen[j]).1 < bits.len()
            &&& forall|i: int, j: int|
                0 <= i < j < m ==> (#[trigger] seen[i]).1 != (#[trigger] seen[j]).1
            &&& forall|c: int, j: int|
                0 <= c < bits.len() && 0 <= j < m && !among(seen.take(m), c) ==> !less(
                    #[trigger] bits[c],
                    bits[(#[trigger] seen[j]).1 as int],
                )
        }),
{
    broadcast use vstd::seq_lib::group_to_multiset_ensures;

    let seen = visited(x, q, bits, n_probes, fused);
    let m = least_of_three(n_probes as int, x.centroids.len() as int, 512);
    lemma_probed_first(x, q, bits, n_probes, fused);
    crate::search_laws::lemma_probes(x, bits, n_probes);
    let probed = probes(x, bits, n_probes);
    let all = by_centroid(bits);
    let cap = probe_count(x.centroids.len(), n_probes);
    let top = keep_all(Seq::empty(), cap, all);
    let sized = with_sizes(x, top);
    let none = Seq::<(Option<i64>, usize)>::empty();
    assert forall|c: int| 0 <= c < all.len() implies (#[trigger] all[c]).0 is Some by {
        assert(is_number(bits[c]));
        crate::single::law_order_of_numbers(bits[c], bits[c]);
    }
    let dropped = crate::selection::law_nearest_are_kept(none, none, cap, all);
    crate::selection::law_kept_were_offered(cap, all);
    assert(none.to_multiset().len() == 0);
    assert(none.to_multiset().add(none.to_multiset()).add(all.to_multiset())
        =~= all.to_multiset());
    assert forall|j: int| 0 <= j < m implies #[trigger] seen[j] == probed[j] by {
        assert(seen.take(m)[j] == probed[j]);
    }
    assert forall|i: int, j: int| 0 <= i < j < m implies (#[trigger] seen[i]).1 != (
    #[trigger] seen[j]).1 by {
        assert(probed[i].1 != probed[j].1);
    }
    assert forall|c: int, j: int|
        0 <= c < bits.len() && 0 <= j < m && !among(seen.take(m), c) implies !less(
        #[trigger] bits[c],
        bits[(#[trigger] seen[j]).1 as int],
    ) by {
        let p = seen[j].1 as int;
        assert(seen[j] == probed[j]);
        crate::selection::lemma_ranked_members(sized, j);
        let i = choose|i: int| 0 <= i < sized.len() && sized[i] == probed[j];
        assert(sized[i].1 == top[i].1);
        assert(all.contains(top[i]));
        let a = choose|a: int| 0 <= a < all.len() && all[a] == top[i];
        assert(all[a].1 == a);
        assert(a == p);
        assert(all.contains(all[c]));
        assert(all.to_multiset().count(all[c]) > 0);
        if top.to_multiset().count(all[c]) > 0 {
            assert(top.contains(all[c]));
            let t = choose|t: int| 0 <= t < top.len() && top[t] == all[c];
            let r = crate::search_laws::lemma_members_ranked(sized, t);
            assert(sized[t].1 == c);
            assert(seen.take(m)[r].1 == c);
            assert(false);
        }
        assert(dropped.to_multiset().count(all[c]) > 0);
        assert(dropped.contains(all[c]));
        let d = choose|d: int| 0 <= d < dropped.len() && dropped[d] == all[c];
        assert(!nearer(dropped[d].0, top[i].0));
        crate::single::law_order_of_numbers(bits[c], bits[p]);
        assert(all[c].0 == crate::distance::order_key(bits[c]));
        assert(all[p].0 == crate::distance::order_key(bits[p]));
    }
}

/// The clusters that are probed are looked at in the order of their sizes, the smallest
/// first.
pub proof fn law_small_clusters_come_first(
    x: Index,
    q: Seq<i16>,
    bits: Seq<u32>,
    n_probes: nat,
    fused: bool,
)
    requires
        bits.len() == x.centroids.len(),
        bits.len() <= usize::MAX,
    ensures
        ({
            let seen = visited(x, q, bits, n_probes, fused);
            let m = least_of_three(n_probes as int, x.centroids.len() as int, 512);
            forall|i: int, j: int|
                0 <= i <= j < m ==> x.sizes[(#[trigger] seen[i]).1 as int] <= x.sizes[(
                #[trigger] seen[j]).1 as int]
        }),
{
    let seen = visited(x, q, bits, n_probes, fused);
    let m = least_of_three(n_probes as int, x.centroids.len() as int, 512);
    lemma_probed_first(x, q, bits, n_probes, fused);
    let probed = probes(x, bits, n_probes);
    let top = keep_all(
        Seq::empty(),
        probe_count(x.centroids.len(), n_probes),
        by_centroid(bits),
    );
    let sized = with_sizes(x, top);
    crate::selection::law_ranked_is_in_order(sized);
    assert forall|j: int| 0 <= j < m implies #[trigger] seen[j] == probed[j] && probed[j].0
        == x.sizes[probed[j].1 as int] by {
        assert(seen.take(m)[j] == probed[j]);
        crate::selection::lemma_ranked_members(sized, j);
        let i = choose|i: int| 0 <= i < sized.len() && sized[i] == probed[j];
        assert(sized[i].0 == x.sizes[sized[i].1 as int] as i64);
    }
    assert forall|i: int, j: int| 0 <= i <= j < m implies x.sizes[(
    #[trigger] seen[i]).1 as int] <= x.sizes[(#[trigger] seen[j]).1 as int] by {
        assert(ranked(sized)[i].0 <= ranked(sized)[j].0);
    }
}

/// Whether `found` are five vectors of one kind, fraud or not, none of them farther than
/// 1400 units of a component: what a search is content with after the probes.
pub open spec fn is_content(found: Seq<(Option<i64>, u8)>) -> bool {
    &&& found.len() == 5
    &&& frauds(found) == 0 || frauds(found) == 5
    &&& forall|j: int|
        0 <= j < found.len() ==> (#[trigger] found[j]).0 is Some && found[j].0->Some_0 <= 1_960_000
}

/// What the probed clusters give are numbers, and no more than five.
proof fn lemma_kept(x: Index, q: Seq<i16>, clusters: Seq<(i64, usize)>, fused: bool)
    ensures
        ({
            let kept = scanned_all(x, Seq::empty(), clusters, q, fused);
            &&& crate::selection::numbers(kept)
            &&& kept.len() <= 5
            &&& frauds(kept) <= kept.len()
            &&& is_content(kept) <==> !mixed(kept) && near_enough(kept)
            &&& kept.len() == 5 ==> reach(kept, 5) is Some
            &&& kept.len() == 5 ==> forall|j: int|
                0 <= j < kept.len() ==> (#[trigger] kept[j]).0->Some_0 <= reach(kept, 5)->Some_0
            &&& kept.len() < 5 ==> reach(kept, 5) == Some(0x7fff_ffff_ffff_ffffi64)
            &&& kept.len() == 5 ==> exists|j: int|
                0 <= j < kept.len() && (#[trigger] kept[j]).0 == reach(kept, 5)
        }),
{
    let none = Seq::<(Option<i64>, u8)>::empty();
    let kept = scanned_all(x, none, clusters, q, fused);
    crate::search_laws::lemma_scanned_all(x, none, clusters, q, fused);
    crate::search_laws::lemma_entries_are_numbers(x, clusters, q, fused);
    let _dropped = crate::selection::law_nearest_are_kept(
        none,
        none,
        5,
        entries_of(x, clusters, q, fused),
    );
    lemma_frauds_fit(kept);
    if kept.len() == 5 {
        crate::selection::lemma_farthest(kept, kept.len());
        let f = farthest(kept, kept.len());
        assert(kept[f].0 is Some);
        assert forall|j: int| 0 <= j < kept.len() implies (#[trigger] kept[j]).0->Some_0
            <= kept[f].0->Some_0 by {
            assert(kept[j].0 is Some);
            assert(!nearer(kept[f].0, kept[j].0));
        }
        if near_enough(kept) {
            assert forall|j: int| 0 <= j < kept.len() implies (#[trigger] kept[j]).0 is Some
                && kept[j].0->Some_0 <= 1_960_000 by {
                assert(kept[j].0 is Some);
            }
        }
    }
}

proof fn lemma_frauds_fit(s: Seq<(Option<i64>, u8)>)
    ensures
        frauds(s) <= s.len(),
    decreases s.len(),
{
    if s.len() > 0 {
        lemma_frauds_fit(s.drop_last());
    }
}

/// Where the probed clusters give five vectors of one kind that are near enough, the search
/// ends with them.
pub proof fn law_content_searches_end(
    x: Index,
    q: Seq<i16>,
    bits: Seq<u32>,
    n_probes: nat,
    fused: bool,
)
    requires
        bits.len() == x.centroids.len(),
        bits.len() <= usize::MAX,
    ensures
        ({
            let seen = visited(x, q, bits, n_probes, fused);
            let m = least_of_three(n_probes as int, x.centroids.len() as int, 512);
            let kept = scanned_all(x, Seq::empty(), seen.take(m), q, fused);
            is_content(kept) ==> seen.len() == m && nearest(x, q, bits, n_probes, fused) == kept
        }),
{
    lemma_probed_first(x, q, bits, n_probes, fused);
    lemma_kept(x, q, probes(x, bits, n_probes), fused);
}

/// The scan of further clusters ends before one of them only where its bounds allow no
/// nearer vector, or where one was scanned and those found are of one kind.
proof fn lemma_why_it_stops(
    x: Index,
    q: Seq<i16>,
    kept: Seq<(Option<i64>, u8)>,
    rest: Seq<(i64, usize)>,
    fused: bool,
)
    requires
        repair_length(x, q, kept, rest, fused) < rest.len(),
    ensures
        ({
            let m = repair_length(x, q, kept, rest, fused);
            let found = repaired(x, q, kept, rest, fused);
            ||| !nearer(Some(rest[m as int].0), reach(found, 5))
            ||| m > 0 && !mixed(found)
        }),
    decreases rest.len(),
{
    if rest.len() > 0 && nearer(Some(rest[0].0), reach(kept, 5)) {
        let now = scanned(x, kept, rest[0].1 as int, q, fused);
        if mixed(now) {
            lemma_why_it_stops(x, q, now, rest.drop_first(), fused);
        }
    }
}

/// Where the probed clusters do not content the search, it looks at every cluster whose
/// bounds allow a vector nearer than those it finds, unless it comes to look at a further
/// cluster and finds vectors of one kind, or has looked at 512 further clusters.
pub proof fn law_other_searches_go_on(
    x: Index,
    q: Seq<i16>,
    bits: Seq<u32>,
    n_probes: nat,
    fused: bool,
    c: int,
)
    requires
        bits.len() == x.centroids.len(),
        bits.len() <= usize::MAX,
        0 <= c < x.centroids.len(),
        x.sizes[c] > 0,
        lower_bound(x, c, q) < 0x40_0000_0000,
    ensures
        ({
            let seen = visited(x, q, bits, n_probes, fused);
            let m = least_of_three(n_probes as int, x.centroids.len() as int, 512);
            let kept = scanned_all(x, Seq::empty(), seen.take(m), q, fused);
            let found = nearest(x, q, bits, n_probes, fused);
            !is_content(kept) && !among(seen, c) ==> {
                ||| found.len() == 5 && forall|j: int|
                    0 <= j < found.len() ==> (#[trigger] found[j]).0->Some_0 <= lower_bound(x, c, q)
                ||| seen.len() > m && (frauds(found) == 0 || frauds(found) == 5)
                ||| seen.len() == m + 512
            }
        }),
{
    let none = Seq::<(Option<i64>, u8)>::empty();
    let seen = visited(x, q, bits, n_probes, fused);
    let m = least_of_three(n_probes as int, x.centroids.len() as int, 512);
    lemma_probed_first(x, q, bits, n_probes, fused);
    crate::search_laws::lemma_probes(x, bits, n_probes);
    let probed = probes(x, bits, n_probes);
    let kept = scanned_all(x, none, probed, q, fused);
    lemma_kept(x, q, probed, fused);
    let found = nearest(x, q, bits, n_probes, fused);
    let bound = lower_bound(x, c, q) as i64;
    if !is_content(kept) && !among(seen, c) {
        let k = x.centroids.len();
        let rest = candidates(x, q, kept, probed);
        let length = repair_length(x, q, kept, rest, fused);
        crate::search_laws::lemma_repaired(x, q, kept, rest, fused);
        let later = rest.take(length as int);
        assert(seen == probed + later);
        crate::search_laws::lemma_entries_are_numbers(x, later, q, fused);
        lemma_found_all(x, q, bits, n_probes, fused);
        lemma_kept(x, q, seen, fused);
        assert(!was_probed(probed, c)) by {
            if was_probed(probed, c) {
                let j = choose|j: int| 0 <= j < probed.len() && (#[trigger] probed[j]).1 == c;
                assert(seen[j].1 == c);
            }
        }
        if !promising(x, q, kept, probed, c) {
            assert(!nearer(Some(bound), reach(kept, 5)));
            assert(kept.len() == 5);
            crate::search_laws::lemma_stays_within(
                kept,
                5,
                entries_of(x, later, q, fused),
                bound,
            );
            lemma_full_stays(kept, entries_of(x, later, q, fused));
            lemma_within(found, bound);
        } else {
            crate::search_laws::lemma_promising(x, q, kept, probed, k);
            crate::search_laws::lemma_promising_fit(x, q, kept, probed);
            let all = promising_of(x, q, kept, probed, k);
            let cap = candidate_count(k, probed.len());
            let a = choose|a: int| 0 <= a < all.len() && (#[trigger] all[a]).1 == c;
            assert(all[a].0 == Some(bound));
            lemma_remembered(all, cap, a);
            let top = keep_all(Seq::empty(), cap, all);
            let bounds = plain(top);
            crate::selection::law_ranked_is_in_order(bounds);
            assert(rest == ranked(bounds));
            if top.contains(all[a]) {
                let t = choose|t: int| 0 <= t < top.len() && top[t] == all[a];
                let b = crate::search_laws::lemma_members_ranked(bounds, t);
                assert(bounds[t] == (bound, c as usize));
                assert(rest[b] == (bound, c as usize));
                assert(length <= b) by {
                    if b < length {
                        assert(later[b] == rest[b]);
                        assert(seen[probed.len() + b].1 == c);
                    }
                }
                lemma_why_it_stops(x, q, kept, rest, fused);
                assert(rest[length as int].0 <= rest[b].0);
            } else if length < rest.len() {
                lemma_why_it_stops(x, q, kept, rest, fused);
                crate::selection::lemma_ranked_members(bounds, length as int);
                let t = choose|t: int| 0 <= t < bounds.len() && bounds[t] == rest[length as int];
                assert(top[t].0->Some_0 <= bound);
                assert(top[t].0 is Some);
                assert(rest[length as int].0 <= bound);
            } else {
                assert(all.len() + probed.len() <= k);
                assert(all.len() > cap);
                assert(rest.len() == cap);
                assert(cap == 512);
            }
            if length < rest.len() && !nearer(Some(rest[length as int].0), reach(found, 5)) {
                assert(!nearer(Some(bound), reach(found, 5)));
                assert(found.len() == 5);
                crate::search_laws::lemma_stays_within(found, 5, none, bound);
                lemma_within(found, bound);
            }
        }
    }
}

/// A cluster that is not remembered has no nearer bounds than those that are, which are as
/// many as can be.
proof fn lemma_remembered(all: Seq<(Option<i64>, usize)>, cap: nat, a: int)
    requires
        0 <= a < all.len(),
        crate::selection::numbers(all),
    ensures
        ({
            let top = keep_all(Seq::empty(), cap, all);
            &&& crate::selection::numbers(top)
            &&& !top.contains(all[a]) ==> {
                &&& top.len() == cap
                &&& all.len() > cap
                &&& forall|t: int|
                    0 <= t < top.len() ==> (#[trigger] top[t]).0->Some_0 <= all[a].0->Some_0
            }
        }),
{
    broadcast use vstd::seq_lib::group_to_multiset_ensures;

    let none = Seq::<(Option<i64>, usize)>::empty();
    let top = keep_all(none, cap, all);
    let dropped = crate::selection::law_nearest_are_kept(none, none, cap, all);
    crate::selection::law_kept_were_offered(cap, all);
    assert(none.to_multiset().len() == 0);
    assert(none.to_multiset().add(none.to_multiset()).add(all.to_multiset())
        =~= all.to_multiset());
    if !top.contains(all[a]) {
        assert(all.contains(all[a]));
        assert(all.to_multiset().count(all[a]) > 0);
        assert(top.to_multiset().count(all[a]) == 0);
        assert(dropped.to_multiset().count(all[a]) > 0);
        assert(dropped.contains(all[a]));
        let d = choose|d: int| 0 <= d < dropped.len() && dropped[d] == all[a];
        assert forall|t: int| 0 <= t < top.len() implies (#[trigger] top[t]).0->Some_0
            <= all[a].0->Some_0 by {
            assert(top[t].0 is Some);
            assert(dropped[d].0 is Some);
            assert(!nearer(dropped[d].0, top[t].0));
        }
    }
}

/// What is found is what the clusters give that were looked at.
proof fn lemma_found_all(x: Index, q: Seq<i16>, bits: Seq<u32>, n_probes: nat, fused: bool)
    ensures
        nearest(x, q, bits, n_probes, fused) == scanned_all(
            x,
            Seq::empty(),
            visited(x, q, bits, n_probes, fused),
            q,
            fused,
        ),
{
    crate::search_laws::lemma_found(x, q, bits, n_probes, fused);
    crate::search_laws::lemma_scanned_all(
        x,
        Seq::empty(),
        visited(x, q, bits, n_probes, fused),
        q,
        fused,
    );
}

proof fn lemma_full_stays(s: Seq<(Option<i64>, u8)>, items: Seq<(Option<i64>, u8)>)
    requires
        s.len() == 5,
    ensures
        keep_all(s, 5, items).len() == 5,
    decreases items.len(),
{
    if items.len() > 0 {
        lemma_full_stays(s, items.drop_last());
        crate::selection::lemma_farthest_place(keep_all(s, 5, items.drop_last()), 5);
    }
}

proof fn lemma_within(s: Seq<(Option<i64>, u8)>, v: i64)
    requires
        within(s, v),
        crate::selection::numbers(s),
    ensures
        forall|j: int| 0 <= j < s.len() ==> (#[trigger] s[j]).0->Some_0 <= v,
{
    assert forall|j: int| 0 <= j < s.len() implies (#[trigger] s[j]).0->Some_0 <= v by {
        assert(s[j].0 is Some);
        assert(!nearer(Some(v), s[j].0));
    }
}

/// Each cluster that a search looks at after the probed ones has vectors, was not probed,
/// and has bounds that allow a nearer vector than those found up to then; and but for the
/// first of them, those found up to then were of both kinds.
pub proof fn law_why_further_clusters(
    x: Index,
    q: Seq<i16>,
    bits: Seq<u32>,
    n_probes: nat,
    fused: bool,
    j: int,
)
    requires
        bits.len() == x.centroids.len(),
        bits.len() <= usize::MAX,
        least_of_three(n_probes as int, x.centroids.len() as int, 512) <= j,
        j < visited(x, q, bits, n_probes, fused).len(),
        lower_bound(x, visited(x, q, bits, n_probes, fused)[j].1 as int, q) < 0x40_0000_0000,
    ensures
        ({
            let seen = visited(x, q, bits, n_probes, fused);
            let m = least_of_three(n_probes as int, x.centroids.len() as int, 512);
            let c = seen[j].1 as int;
            let before = scanned_all(x, Seq::empty(), seen.take(j), q, fused);
            &&& c < x.centroids.len()
            &&& x.sizes[c] > 0
            &&& !among(seen.take(m), c)
            &&& before.len() == 5 ==> exists|i: int|
                0 <= i < 5 && lower_bound(x, c, q) < (#[trigger] before[i]).0->Some_0
            &&& j == m ==> !is_content(before)
            &&& j > m ==> 1 <= frauds(before) <= 4
        }),
{
    let none = Seq::<(Option<i64>, u8)>::empty();
    let seen = visited(x, q, bits, n_probes, fused);
    let m = least_of_three(n_probes as int, x.centroids.len() as int, 512);
    lemma_probed_first(x, q, bits, n_probes, fused);
    let probed = probes(x, bits, n_probes);
    let kept = scanned_all(x, none, probed, q, fused);
    lemma_kept(x, q, probed, fused);
    let rest = candidates(x, q, kept, probed);
    let length = repair_length(x, q, kept, rest, fused);
    crate::search_laws::lemma_repaired(x, q, kept, rest, fused);
    crate::search_laws::lemma_candidates(x, q, kept, probed);
    assert(seen == probed + rest.take(length as int));
    let r = j - m;
    let c = seen[j].1 as int;
    assert(seen[j] == rest[r]);
    lemma_candidate(x, q, kept, probed, r);
    lemma_step(x, q, kept, rest, fused, r);
    lemma_scanned_concat(x, probed, rest.take(r), q, fused);
    assert(seen.take(j) =~= probed + rest.take(r));
    let before = scanned_all(x, none, seen.take(j), q, fused);
    lemma_kept(x, q, seen.take(j), fused);
    if before.len() == 5 {
        let i = choose|i: int| 0 <= i < 5 && (#[trigger] before[i]).0 == reach(before, 5);
        assert(nearer(Some(rest[r].0), before[i].0));
        assert(lower_bound(x, c, q) < before[i].0->Some_0);
    }
    if among(seen.take(m), c) {
        let i = choose|i: int| 0 <= i < m && (#[trigger] seen.take(m)[i]).1 == c;
        assert(probed[i].1 == c);
    }
}

proof fn lemma_candidate(
    x: Index,
    q: Seq<i16>,
    kept: Seq<(Option<i64>, u8)>,
    probed: Seq<(i64, usize)>,
    r: int,
)
    requires
        x.centroids.len() <= usize::MAX,
        0 <= r < candidates(x, q, kept, probed).len(),
    ensures
        ({
            let (bound, c) = candidates(x, q, kept, probed)[r];
            &&& c < x.centroids.len()
            &&& x.sizes[c as int] > 0
            &&& bound == lower_bound(x, c as int, q) as i64
        }),
{
    let k = x.centroids.len();
    let cap = candidate_count(k, probed.len());
    let all = promising_of(x, q, kept, probed, k);
    crate::search_laws::lemma_promising(x, q, kept, probed, k);
    let top = keep_all(Seq::empty(), cap, all);
    crate::selection::law_kept_were_offered(cap, all);
    let bounds = plain(top);
    crate::selection::lemma_ranked_members(bounds, r);
    let i = choose|i: int| 0 <= i < bounds.len() && bounds[i] == ranked(bounds)[r];
    assert(all.contains(top[i]));
    let a = choose|a: int| 0 <= a < all.len() && all[a] == top[i];
    assert(promising(x, q, kept, probed, all[a].1 as int));
}

proof fn lemma_scanned_concat(
    x: Index,
    a: Seq<(i64, usize)>,
    b: Seq<(i64, usize)>,
    q: Seq<i16>,
    fused: bool,
)
    ensures
        scanned_all(x, Seq::empty(), a + b, q, fused) == scanned_all(
            x,
            scanned_all(x, Seq::empty(), a, q, fused),
            b,
            q,
            fused,
        ),
    decreases b.len(),
{
    if b.len() == 0 {
        assert(a + b =~= a);
    } else {
        lemma_scanned_concat(x, a, b.drop_last(), q, fused);
        assert((a + b).drop_last() =~= a + b.drop_last());
    }
}

proof fn lemma_scanned_front(
    x: Index,
    kept: Seq<(Option<i64>, u8)>,
    s: Seq<(i64, usize)>,
    q: Seq<i16>,
    fused: bool,
)
    requires
        s.len() > 0,
    ensures
        scanned_all(x, kept, s, q, fused) == scanned_all(
            x,
            scanned(x, kept, s[0].1 as int, q, fused),
            s.drop_first(),
            q,
            fused,
        ),
    decreases s.len(),
{
    if s.len() == 1 {
        assert(s.drop_last() =~= Seq::empty());
        assert(scanned_all(x, kept, s.drop_last(), q, fused) == kept);
        assert(s.drop_first() =~= Seq::empty());
    } else {
        lemma_scanned_front(x, kept, s.drop_last(), q, fused);
        assert(s.drop_first().drop_last() =~= s.drop_last().drop_first());
    }
}

/// What held before a further cluster was scanned.
proof fn lemma_step(
    x: Index,
    q: Seq<i16>,
    kept: Seq<(Option<i64>, u8)>,
    rest: Seq<(i64, usize)>,
    fused: bool,
    r: int,
)
    requires
        0 <= r < repair_length(x, q, kept, rest, fused),
        repair_length(x, q, kept, rest, fused) <= rest.len(),
    ensures
        nearer(Some(rest[r].0), reach(scanned_all(x, kept, rest.take(r), q, fused), 5)),
        r > 0 ==> mixed(scanned_all(x, kept, rest.take(r), q, fused)),
    decreases rest.len(),
{
    if r == 0 {
        assert(rest.take(0) =~= Seq::empty());
        assert(scanned_all(x, kept, rest.take(0), q, fused) == kept);
    } else {
        let now = scanned(x, kept, rest[0].1 as int, q, fused);
        let later = rest.drop_first();
        lemma_step(x, q, now, later, fused, r - 1);
        lemma_scanned_front(x, kept, rest.take(r), q, fused);
        assert(rest.take(r).drop_first() =~= later.take(r - 1));
        if r == 1 {
            assert(later.take(0) =~= Seq::empty());
            assert(scanned_all(x, now, later.take(0), q, fused) == now);
        }
    }
}

/// The sum of the squares of the differences of fourteen components.
pub open spec fn sum_of_squares(a: Seq<i16>, b: Seq<i16>) -> int {
    (a[0] - b[0]) * (a[0] - b[0]) + (a[1] - b[1]) * (a[1] - b[1]) + (a[2] - b[2]) * (a[2] - b[2])
        + (a[3] - b[3]) * (a[3] - b[3]) + (a[4] - b[4]) * (a[4] - b[4]) + (a[5] - b[5]) * (a[5]
        - b[5]) + (a[6] - b[6]) * (a[6] - b[6]) + (a[7] - b[7]) * (a[7] - b[7]) + (a[8] - b[8]) * (
    a[8] - b[8]) + (a[9] - b[9]) * (a[9] - b[9]) + (a[10] - b[10]) * (a[10] - b[10]) + (a[11]
        - b[11]) * (a[11] - b[11]) + (a[12] - b[12]) * (a[12] - b[12]) + (a[13] - b[13]) * (a[13]
        - b[13])
}

pub proof fn lemma_sum_of_squares(q: Seq<i16>, v: Seq<i16>)
    ensures
        squared(q, v, 14) == sum_of_squares(q, v),
{
    reveal_with_fuel(squared, 15);
    assert forall|d: int| 0 <= d < 14 implies (#[trigger] q[d] - v[d]) * (q[d] - v[d]) >= 0 by {
        let a = q[d] - v[d];
        assert(a * a >= 0) by (nonlinear_arith);
    }
    assert(q[0] - v[0] == q[0] - v[0] && q[1] - v[1] == q[1] - v[1]);
}

/// A search compares each vector of a cluster with the query once: with the label that
/// stands at its place, and by the sum of the squares of the differences of its components,
/// which is exact under 2^24 and else off by no more than 42 parts in 2^24.
pub proof fn law_vectors_are_compared(x: Index, c: int, q: Seq<i16>, fused: bool, i: int)
    requires
        0 <= i < x.sizes[c],
    ensures
        entries(x, c, q, fused).len() == x.sizes[c],
        entries(x, c, q, fused)[i].1 == x.labels[x.offsets[c] + i],
        entries(x, c, q, fused)[i].0 is Some,
        ({
            let exact = sum_of_squares(q, x.vector(c, i));
            let taken = entries(x, c, q, fused)[i].0->Some_0;
            &&& exact < 0x100_0000 ==> taken == exact
            &&& 0x100_0000 * (taken - exact) <= 42 * exact
            &&& 0x100_0000 * (exact - taken) <= 42 * exact
        }),
{
    let v = x.vector(c, i);
    lemma_sum_of_squares(q, v);
    crate::probing::lemma_measured_bound(x, c, i, q, fused);
    if sum_of_squares(q, v) < 0x100_0000 {
        crate::distance::law_small_distances_are_exact(q, v, 14, fused);
    }
    crate::distance::law_distances_are_nearly_exact(q, v, 14, fused);
}

/// What the search finds are five of the vectors of the clusters that it looks at, or all of
/// them if they are fewer; the others, which are handed back, are no nearer than any of
/// those found.
pub proof fn law_nothing_nearer_is_left_out(
    x: Index,
    q: Seq<i16>,
    bits: Seq<u32>,
    n_probes: nat,
    fused: bool,
) -> (dropped: Seq<(Option<i64>, u8)>)
    ensures
        ({
            let found = nearest(x, q, bits, n_probes, fused);
            let all = entries_of(x, visited(x, q, bits, n_probes, fused), q, fused);
            &&& found.len() == if all.len() < 5 {
                all.len()
            } else {
                5
            }
            &&& found.to_multiset().add(dropped.to_multiset()) == all.to_multiset()
            &&& forall|i: int, j: int|
                0 <= i < found.len() && 0 <= j < dropped.len() ==> (
                #[trigger] found[i]).0->Some_0 <= (#[trigger] dropped[j]).0->Some_0
        }),
{
    broadcast use vstd::seq_lib::group_to_multiset_ensures;

    let found = nearest(x, q, bits, n_probes, fused);
    let seen = visited(x, q, bits, n_probes, fused);
    let all = entries_of(x, seen, q, fused);
    let dropped = crate::search_laws::law_nearest_of_the_visited(x, q, bits, n_probes, fused);
    crate::search_laws::lemma_entries_are_numbers(x, seen, q, fused);
    assert forall|i: int, j: int| 0 <= i < found.len() && 0 <= j < dropped.len() implies (
    #[trigger] found[i]).0->Some_0 <= (#[trigger] dropped[j]).0->Some_0 by {
        assert(!nearer(dropped[j].0, found[i].0));
        assert(found[i].0 is Some);
        assert(dropped.contains(dropped[j]));
        assert(dropped.to_multiset().count(dropped[j]) > 0);
        assert(all.to_multiset().count(dropped[j]) > 0);
        assert(all.contains(dropped[j]));
        let a = choose|a: int| 0 <= a < all.len() && all[a] == dropped[j];
        assert(all[a].0 is Some);
    }
    dropped
}

/// The vectors of several clusters are those of one after the other.
pub proof fn law_clusters_one_after_the_other(
    x: Index,
    clusters: Seq<(i64, usize)>,
    next: (i64, usize),
    q: Seq<i16>,
    fused: bool,
)
    ensures
        entries_of(x, Seq::empty(), q, fused).len() == 0,
        entries_of(x, clusters.push(next), q, fused) == entries_of(x, clusters, q, fused)
            + entries(x, next.1 as int, q, fused),
{
    assert(clusters.push(next).drop_last() =~= clusters);
}

/// As many frauds are counted as vectors carry the label 1.
pub proof fn law_frauds_are_counted(s: Seq<(Option<i64>, u8)>)
    ensures
        frauds(s) == s.filter(|e: (Option<i64>, u8)| e.1 == 1).len(),
    decreases s.len(),
{
    reveal(Seq::filter);
    if s.len() > 0 {
        law_frauds_are_counted(s.drop_last());
    }
}

/// The bounds of a cluster are as far as the point of theirs that is nearest to the query:
/// the query moved into them, component by component. Under 2^24 that is exact, else off by
/// no more than one part in 2^24.
pub proof fn law_distance_of_bounds(x: Index, c: int, q: Seq<i16>, v: Seq<i16>)
    requires
        forall|d: int|
            0 <= d < 14 ==> #[trigger] v[d] == if q[d] < x.mins[c][d] {
                x.mins[c][d]
            } else if q[d] > x.maxs[c][d] {
                x.maxs[c][d]
            } else {
                q[d]
            },
    ensures
        sum_of_squares(q, v) < 0x100_0000 ==> lower_bound(x, c, q) == sum_of_squares(q, v),
        0x100_0000 * (lower_bound(x, c, q) - sum_of_squares(q, v)) <= sum_of_squares(q, v),
        0x100_0000 * (sum_of_squares(q, v) - lower_bound(x, c, q)) <= sum_of_squares(q, v),
{
    crate::distance::law_box_is_reached(q, v, x.mins[c], x.maxs[c], 14);
    lemma_sum_of_squares(q, v);
    crate::rounding::law_rounding_is_slight(squared(q, v, 14));
    if sum_of_squares(q, v) < 0x100_0000 {
        crate::rounding::law_small_numbers_are_exact(squared(q, v, 14));
    }
}

/// Where the vectors of every cluster that has any are there, fourteen components for each
/// from the offset of the cluster on, and their labels too, every query can be answered.
pub proof fn law_indexes_that_are_whole_answer(
    x: Index,
    q: Seq<i16>,
    bits: Seq<u32>,
    n_probes: nat,
    fused: bool,
)
    requires
        x.shaped(),
        forall|c: int|
            0 <= c < x.sizes.len() && #[trigger] x.sizes[c] > 0 ==> x.offsets[c] + x.sizes[c]
                <= x.labels.len() && x.panels[c] + 14 * x.sizes[c] <= x.units.len(),
        bits.len() == x.centroids.len(),
        bits.len() <= usize::MAX,
    ensures
        crate::probing::can_search(x, q, bits, n_probes, fused),
{
    assert forall|c: int| 0 <= c < x.sizes.len() implies #[trigger] x.holds(c) by {
        if x.sizes[c] > 0 {
            assert(x.offsets[c] + x.sizes[c] <= x.labels.len());
        }
    }
    crate::search_laws::law_whole_indexes_answer(x, q, bits, n_probes, fused);
}

} // verus!
