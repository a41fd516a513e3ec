//! What holds of the search as a whole.
use vstd::prelude::*;

verus! {

use crate::distance::squared;
use crate::index::Index;
use crate::probing::{
    by_centroid, can_search, candidate_count, candidates, entries, held, lower_bound, measured,
    mixed, near_enough, nearest, plain, probe_count, probes, promising, promising_of,
    repair_length, repaired, scanned, scanned_all, visited, was_probed, with_sizes, MAX_PROBES,
    NEIGHBOURS,
};
use crate::rounding::EXACT_BELOW;
use crate::selection::{keep_all, nearer, not_beyond, numbers, ranked, reach};
use crate::wire::DIM;

/// The vectors of several clusters, one cluster after the other.
pub open spec fn entries_of(
    x: Index,
    clusters: Seq<(i64, usize)>,
    q: Seq<i16>,
    fused: bool,
) -> Seq<(Option<i64>, u8)>
    decreases clusters.len(),
{
    if clusters.len() == 0 {
        Seq::empty()
    } else {
        entries_of(x, clusters.drop_last(), q, fused) + entries(
            x,
            clusters.last().1 as int,
            q,
            fused,
        )
    }
}

pub proof fn lemma_keep_concat(
    s: Seq<(Option<i64>, u8)>,
    cap: nat,
    a: Seq<(Option<i64>, u8)>,
    b: Seq<(Option<i64>, u8)>,
)
    ensures
        keep_all(s, cap, a + b) == keep_all(keep_all(s, cap, a), cap, b),
    decreases b.len(),
{
    if b.len() == 0 {
        assert(a + b =~= a);
    } else {
        lemma_keep_concat(s, cap, a, b.drop_last());
        assert((a + b).drop_last() =~= a + b.drop_last());
    }
}

pub proof fn lemma_entries_concat(
    x: Index,
    a: Seq<(i64, usize)>,
    b: Seq<(i64, usize)>,
    q: Seq<i16>,
    fused: bool,
)
    ensures
        entries_of(x, a + b, q, fused) == entries_of(x, a, q, fused) + entries_of(x, b, q, fused),
    decreases b.len(),
{
    if b.len() == 0 {
        assert(a + b =~= a);
        assert(entries_of(x, a, q, fused) + Seq::empty() =~= entries_of(x, a, q, fused));
    } else {
        lemma_entries_concat(x, a, b.drop_last(), q, fused);
        assert((a + b).drop_last() =~= a + b.drop_last());
        assert(entries_of(x, a + b, q, fused) =~= entries_of(x, a, q, fused) + entries_of(
            x,
            b,
            q,
            fused,
        ));
    }
}

pub proof fn lemma_scanned_all(
    x: Index,
    kept: Seq<(Option<i64>, u8)>,
    clusters: Seq<(i64, usize)>,
    q: Seq<i16>,
    fused: bool,
)
    ensures
        scanned_all(x, kept, clusters, q, fused) == keep_all(
            kept,
            NEIGHBOURS as nat,
            entries_of(x, clusters, q, fused),
        ),
    decreases clusters.len(),
{
    if clusters.len() > 0 {
        lemma_scanned_all(x, kept, clusters.drop_last(), q, fused);
        lemma_keep_concat(
            kept,
            NEIGHBOURS as nat,
            entries_of(x, clusters.drop_last(), q, fused),
            entries(x, clusters.last().1 as int, q, fused),
        );
    }
}

pub proof fn lemma_repaired(
    x: Index,
    q: Seq<i16>,
    kept: Seq<(Option<i64>, u8)>,
    rest: Seq<(i64, usize)>,
    fused: bool,
)
    ensures
        repair_length(x, q, kept, rest, fused) <= rest.len(),
        repaired(x, q, kept, rest, fused) == keep_all(
            kept,
            NEIGHBOURS as nat,
            entries_of(x, rest.take(repair_length(x, q, kept, rest, fused) as int), q, fused),
        ),
    decreases rest.len(),
{
    let m = repair_length(x, q, kept, rest, fused);
    if m == 0 {
        assert(rest.take(0) =~= Seq::empty());
    } else {
        let now = scanned(x, kept, rest[0].1 as int, q, fused);
        let first = seq![rest[0]];
        let more: nat = (m - 1) as nat;
        assert(first.drop_last() =~= Seq::empty());
        assert(entries_of(x, first.drop_last(), q, fused) =~= Seq::empty());
        assert(entries_of(x, first, q, fused) =~= entries(x, rest[0].1 as int, q, fused));
        if mixed(now) {
            lemma_repaired(x, q, now, rest.drop_first(), fused);
        } else {
            assert(rest.drop_first().take(0) =~= Seq::empty());
        }
        let tail = rest.drop_first().take(more as int);
        assert(rest.take(m as int) =~= first + tail);
        lemma_entries_concat(x, first, tail, q, fused);
        lemma_keep_concat(
            kept,
            NEIGHBOURS as nat,
            entries_of(x, first, q, fused),
            entries_of(x, tail, q, fused),
        );
    }
}

pub proof fn lemma_entries_are_numbers(
    x: Index,
    clusters: Seq<(i64, usize)>,
    q: Seq<i16>,
    fused: bool,
)
    ensures
        numbers(entries_of(x, clusters, q, fused)),
    decreases clusters.len(),
{
    if clusters.len() > 0 {
        lemma_entries_are_numbers(x, clusters.drop_last(), q, fused);
    }
}

/// The search keeps the nearest five of all vectors of the clusters that it looks at, or
/// all of them if they are fewer, and of all that it gave up none is nearer than one that
/// it kept. What it gave up is handed back.
pub proof fn law_nearest_of_the_visited(
    x: Index,
    q: Seq<i16>,
    bits: Seq<u32>,
    n_probes: nat,
    fused: bool,
) -> (dropped: Seq<(Option<i64>, u8)>)
    ensures
        ({
            let found = nearest(x, q, bits, n_probes, fused);
            let all = entries_of(x, visited(x, q, bits, n_probes, fused), q, fused);
            &&& numbers(found)
            &&& found.len() == if all.len() < NEIGHBOURS {
                all.len()
            } else {
                NEIGHBOURS as nat
            }
            &&& found.to_multiset().add(dropped.to_multiset()) == all.to_multiset()
            &&& not_beyond(found, dropped)
        }),
{
    broadcast use vstd::seq_lib::group_to_multiset_ensures;

    let seen = visited(x, q, bits, n_probes, fused);
    let all = entries_of(x, seen, q, fused);
    let none = Seq::<(Option<i64>, u8)>::empty();
    lemma_found(x, q, bits, n_probes, fused);
    lemma_entries_are_numbers(x, seen, q, fused);
    let dropped = crate::selection::law_nearest_are_kept(none, none, NEIGHBOURS as nat, all);
    assert(none.to_multiset().len() == 0);
    assert(none.to_multiset().add(none.to_multiset()).add(all.to_multiset())
        =~= all.to_multiset());
    dropped
}

pub proof fn lemma_found(x: Index, q: Seq<i16>, bits: Seq<u32>, n_probes: nat, fused: bool)
    ensures
        nearest(x, q, bits, n_probes, fused) == keep_all(
            Seq::empty(),
            NEIGHBOURS as nat,
            entries_of(x, visited(x, q, bits, n_probes, fused), q, fused),
        ),
{
    let probed = probes(x, bits, n_probes);
    let none = Seq::<(Option<i64>, u8)>::empty();
    let kept = scanned_all(x, none, probed, q, fused);
    lemma_scanned_all(x, none, probed, q, fused);
    if mixed(kept) || !near_enough(kept) {
        let rest = candidates(x, q, kept, probed);
        let m = repair_length(x, q, kept, rest, fused);
        lemma_repaired(x, q, kept, rest, fused);
        lemma_entries_concat(x, probed, rest.take(m as int), q, fused);
        lemma_keep_concat(
            none,
            NEIGHBOURS as nat,
            entries_of(x, probed, q, fused),
            entries_of(x, rest.take(m as int), q, fused),
        );
    }
}

/// Whether no cluster occurs twice.
pub open spec fn distinct<R>(s: Seq<(R, usize)>) -> bool {
    forall|i: int, j: int| 0 <= i < j < s.len() ==> (#[trigger] s[i]).1 != (#[trigger] s[j]).1
}

proof fn lemma_kept_distinct(cap: nat, items: Seq<(Option<i64>, usize)>)
    requires
        forall|i: int, j: int|
            0 <= i < j < items.len() ==> (#[trigger] items[i]).1 < (#[trigger] items[j]).1,
    ensures
        distinct(keep_all(Seq::empty(), cap, items)),
    decreases items.len(),
{
    if items.len() > 0 {
        let fewer = items.drop_last();
        let mid = keep_all(Seq::empty(), cap, fewer);
        let kept = keep_all(Seq::empty(), cap, items);
        lemma_kept_distinct(cap, fewer);
        crate::selection::law_kept_were_offered(cap, fewer);
        if mid.len() > 0 {
            crate::selection::lemma_farthest_place(mid, mid.len());
        }
        assert forall|i: int| 0 <= i < mid.len() implies (#[trigger] mid[i]).1
            < items.last().1 by {
            assert(fewer.contains(mid[i]));
            let j = choose|j: int| 0 <= j < fewer.len() && fewer[j] == mid[i];
            assert(items[j].1 < items[items.len() - 1].1);
        }
        assert forall|i: int, j: int| 0 <= i < j < kept.len() implies (#[trigger] kept[i]).1 != (
        #[trigger] kept[j]).1 by {
            assert(i < mid.len() ==> mid[i].1 < items.last().1);
            assert(j < mid.len() ==> mid[j].1 < items.last().1);
            if i < mid.len() && j < mid.len() {
                assert(mid[i].1 != mid[j].1);
            }
        }
    }
}

proof fn lemma_ranked_distinct(s: Seq<(i64, usize)>)
    requires
        distinct(s),
    ensures
        distinct(ranked(s)),
{
    broadcast use vstd::seq_lib::group_to_multiset_ensures;

    crate::selection::law_ranked_is_in_order(s);
    assert(s.no_duplicates()) by {
        assert forall|i: int, j: int|
            0 <= i < s.len() && 0 <= j < s.len() && i != j implies s[i] != s[j] by {
            if i < j {
                assert(s[i].1 != s[j].1);
            } else {
                assert(s[j].1 != s[i].1);
            }
        }
    }
    s.lemma_multiset_has_no_duplicates();
    ranked(s).lemma_multiset_has_no_duplicates_conv();
    assert forall|i: int, j: int| 0 <= i < j < ranked(s).len() implies (#[trigger] ranked(s)[i]).1
        != (#[trigger] ranked(s)[j]).1 by {
        crate::selection::lemma_ranked_members(s, i);
        crate::selection::lemma_ranked_members(s, j);
        let a = choose|a: int| 0 <= a < s.len() && s[a] == ranked(s)[i];
        let b = choose|b: int| 0 <= b < s.len() && s[b] == ranked(s)[j];
        if s[a].1 == s[b].1 {
            if a < b {
                assert(s[a].1 != s[b].1);
            } else if b < a {
                assert(s[b].1 != s[a].1);
            }
            assert(ranked(s)[i] == ranked(s)[j]);
        }
    }
}

/// What goes into a sort comes out.
pub proof fn lemma_members_ranked(s: Seq<(i64, usize)>, i: int) -> (j: int)
    requires
        0 <= i < s.len(),
    ensures
        0 <= j < ranked(s).len(),
        ranked(s)[j] == s[i],
{
    broadcast use vstd::seq_lib::group_to_multiset_ensures;

    crate::selection::law_ranked_is_in_order(s);
    assert(s.contains(s[i]));
    assert(s.to_multiset().count(s[i]) > 0);
    assert(ranked(s).contains(s[i]));
    choose|j: int| 0 <= j < ranked(s).len() && ranked(s)[j] == s[i]
}

pub proof fn lemma_probes(x: Index, bits: Seq<u32>, n_probes: nat)
    requires
        bits.len() == x.centroids.len(),
        bits.len() <= usize::MAX,
    ensures
        distinct(probes(x, bits, n_probes)),
        probes(x, bits, n_probes).len() == probe_count(x.centroids.len(), n_probes),
        forall|j: int|
            0 <= j < probes(x, bits, n_probes).len() ==> (#[trigger] probes(x, bits, n_probes)[j]).1
                < x.centroids.len(),
{
    let cap = probe_count(x.centroids.len(), n_probes);
    let all = by_centroid(bits);
    let top = keep_all(Seq::empty(), cap, all);
    let sized = with_sizes(x, top);
    lemma_kept_distinct(cap, all);
    crate::selection::law_kept_were_offered(cap, all);
    assert(distinct(sized)) by {
        assert forall|i: int, j: int| 0 <= i < j < sized.len() implies (#[trigger] sized[i]).1 != (
        #[trigger] sized[j]).1 by {
            assert(top[i].1 != top[j].1);
        }
    }
    lemma_ranked_distinct(sized);
    crate::selection::law_ranked_is_in_order(sized);
    assert forall|j: int| 0 <= j < ranked(sized).len() implies (#[trigger] ranked(sized)[j]).1
        < x.centroids.len() by {
        crate::selection::lemma_ranked_members(sized, j);
        let i = choose|i: int| 0 <= i < sized.len() && sized[i] == ranked(sized)[j];
        assert(all.contains(top[i]));
    }
}

pub proof fn lemma_promising(
    x: Index,
    q: Seq<i16>,
    kept: Seq<(Option<i64>, u8)>,
    probed: Seq<(i64, usize)>,
    n: nat,
)
    requires
        n <= usize::MAX,
    ensures
        ({
            let s = promising_of(x, q, kept, probed, n);
            &&& s.len() <= n
            &&& numbers(s)
            &&& forall|i: int, j: int|
                0 <= i < j < s.len() ==> (#[trigger] s[i]).1 < (#[trigger] s[j]).1
            &&& forall|i: int|
                0 <= i < s.len() ==> (#[trigger] s[i]).1 < n && promising(
                    x,
                    q,
                    kept,
                    probed,
                    s[i].1 as int,
                ) && s[i].0 == Some(lower_bound(x, s[i].1 as int, q) as i64)
            &&& forall|c: int|
                0 <= c < n && #[trigger] promising(x, q, kept, probed, c) ==> exists|i: int|
                    0 <= i < s.len() && (#[trigger] s[i]).1 == c
        }),
    decreases n,
{
    if n > 0 {
        let m = (n - 1) as nat;
        lemma_promising(x, q, kept, probed, m);
        let before = promising_of(x, q, kept, probed, m);
        let s = promising_of(x, q, kept, probed, n);
        assert forall|c: int| 0 <= c < n && #[trigger] promising(x, q, kept, probed, c) implies exists|
            i: int,
        |
            0 <= i < s.len() && (#[trigger] s[i]).1 == c by {
            if c < m {
                let i = choose|i: int| 0 <= i < before.len() && (#[trigger] before[i]).1 == c;
                assert(s[i].1 == c);
            } else {
                assert(s[s.len() - 1].1 == c);
            }
        }
    }
}

pub proof fn lemma_candidates(
    x: Index,
    q: Seq<i16>,
    kept: Seq<(Option<i64>, u8)>,
    probed: Seq<(i64, usize)>,
)
    requires
        x.centroids.len() <= usize::MAX,
    ensures
        distinct(candidates(x, q, kept, probed)),
        forall|j: int|
            0 <= j < candidates(x, q, kept, probed).len() ==> (#[trigger] candidates(
                x,
                q,
                kept,
                probed,
            )[j]).1 < x.centroids.len() && !was_probed(
                probed,
                candidates(x, q, kept, probed)[j].1 as int,
            ),
{
    let k = x.centroids.len();
    let cap = candidate_count(k, probed.len());
    let all = promising_of(x, q, kept, probed, k);
    lemma_promising(x, q, kept, probed, k);
    let top = keep_all(Seq::empty(), cap, all);
    lemma_kept_distinct(cap, all);
    crate::selection::law_kept_were_offered(cap, all);
    let bounds = plain(top);
    assert(distinct(bounds)) by {
        assert forall|i: int, j: int| 0 <= i < j < bounds.len() implies (#[trigger] bounds[i]).1
            != (#[trigger] bounds[j]).1 by {
            assert(top[i].1 != top[j].1);
        }
    }
    lemma_ranked_distinct(bounds);
    assert forall|j: int| 0 <= j < ranked(bounds).len() implies (#[trigger] ranked(bounds)[j]).1
        < k && !was_probed(probed, ranked(bounds)[j].1 as int) by {
        crate::selection::lemma_ranked_members(bounds, j);
        let i = choose|i: int| 0 <= i < bounds.len() && bounds[i] == ranked(bounds)[j];
        assert(all.contains(top[i]));
        let a = choose|a: int| 0 <= a < all.len() && all[a] == top[i];
        assert(promising(x, q, kept, probed, all[a].1 as int));
    }
}

/// The search looks at clusters that exist, and at none twice.
pub proof fn law_no_cluster_twice(
    x: Index,
    q: Seq<i16>,
    bits: Seq<u32>,
    n_probes: nat,
    fused: bool,
)
    requires
        bits.len() == x.centroids.len(),
        bits.len() <= usize::MAX,
    ensures
        distinct(visited(x, q, bits, n_probes, fused)),
        forall|j: int|
            0 <= j < visited(x, q, bits, n_probes, fused).len() ==> (#[trigger] visited(
                x,
                q,
                bits,
                n_probes,
                fused,
            )[j]).1 < x.centroids.len(),
{
    let probed = probes(x, bits, n_probes);
    let kept = scanned_all(x, Seq::empty(), probed, q, fused);
    lemma_probes(x, bits, n_probes);
    if mixed(kept) || !near_enough(kept) {
        let rest = candidates(x, q, kept, probed);
        let m = repair_length(x, q, kept, rest, fused);
        lemma_repaired(x, q, kept, rest, fused);
        lemma_candidates(x, q, kept, probed);
        let seen = visited(x, q, bits, n_probes, fused);
        assert forall|i: int, j: int| 0 <= i < j < seen.len() implies (#[trigger] seen[i]).1 != (
        #[trigger] seen[j]).1 by {
            if j < probed.len() {
                assert(probed[i].1 != probed[j].1);
            } else if i < probed.len() {
                assert(seen[j] == rest[j - probed.len()]);
                assert(!was_probed(probed, rest[j - probed.len()].1 as int));
                assert(probed[i].1 == seen[i].1);
            } else {
                assert(rest[i - probed.len()].1 != rest[j - probed.len()].1);
            }
        }
        assert forall|j: int| 0 <= j < seen.len() implies (#[trigger] seen[j]).1
            < x.centroids.len() by {
            if j < probed.len() {
                assert(probed[j].1 < x.centroids.len());
            } else {
                assert(rest[j - probed.len()].1 < x.centroids.len());
            }
        }
    }
}

/// Those of the first `n` clusters that are not among `seen`.
pub open spec fn others(seen: Seq<(i64, usize)>, n: nat) -> Seq<(i64, usize)>
    decreases n,
{
    if n == 0 {
        Seq::empty()
    } else {
        let before = others(seen, (n - 1) as nat);
        if was_probed(seen, n - 1) {
            before
        } else {
            before.push((0, (n - 1) as usize))
        }
    }
}

/// The vectors of all clusters, one cluster after the other.
pub open spec fn every_entry(x: Index, q: Seq<i16>, fused: bool) -> Seq<(Option<i64>, u8)> {
    entries_of(
        x,
        Seq::new(x.centroids.len(), |c: int| (0i64, c as usize)),
        q,
        fused,
    )
}

/// Whether `found` and `dropped` together are `all`, each as often as it is there, and
/// nothing in `dropped` is nearer than anything in `found`.
pub open spec fn splits(
    all: Seq<(Option<i64>, u8)>,
    found: Seq<(Option<i64>, u8)>,
    dropped: Seq<(Option<i64>, u8)>,
) -> bool {
    &&& found.to_multiset().add(dropped.to_multiset()) == all.to_multiset()
    &&& not_beyond(found, dropped)
}

/// Whether those found are the nearest five of all vectors, or all if there are fewer.
pub open spec fn exact(
    x: Index,
    q: Seq<i16>,
    fused: bool,
    found: Seq<(Option<i64>, u8)>,
) -> bool {
    let all = every_entry(x, q, fused);
    &&& found.len() == if all.len() < NEIGHBOURS {
        all.len()
    } else {
        NEIGHBOURS as nat
    }
    &&& exists|dropped: Seq<(Option<i64>, u8)>| #[trigger] splits(all, found, dropped)
}

proof fn lemma_others_push(
    x: Index,
    q: Seq<i16>,
    fused: bool,
    seen: Seq<(i64, usize)>,
    item: (i64, usize),
    n: nat,
)
    requires
        !was_probed(seen, item.1 as int),
        n <= usize::MAX,
    ensures
        n <= item.1 ==> others(seen.push(item), n) == others(seen, n),
        n > item.1 ==> entries_of(x, others(seen, n), q, fused).to_multiset() == entries_of(
            x,
            others(seen.push(item), n),
            q,
            fused,
        ).to_multiset().add(entries(x, item.1 as int, q, fused).to_multiset()),
    decreases n,
{
    if n > 0 {
        let m = (n - 1) as nat;
        lemma_others_push(x, q, fused, seen, item, m);
        let more = seen.push(item);
        assert(was_probed(more, m as int) == (was_probed(seen, m as int) || m == item.1)) by {
            if was_probed(seen, m as int) {
                let j = choose|j: int| 0 <= j < seen.len() && (#[trigger] seen[j]).1 == m;
                assert(more[j].1 == m);
            }
            if m == item.1 {
                assert(more[seen.len() as int].1 == m);
            }
            if was_probed(more, m as int) {
                let j = choose|j: int| 0 <= j < more.len() && (#[trigger] more[j]).1 == m;
                if j < seen.len() {
                    assert(seen[j].1 == m);
                }
            }
        }
        let here = (0i64, m as usize);
        let a = others(seen, m);
        let b = others(more, m);
        let added = entries(x, m as int, q, fused);
        let wanted = entries(x, item.1 as int, q, fused);
        assert(a.push(here).drop_last() =~= a);
        assert(b.push(here).drop_last() =~= b);
        vstd::seq_lib::lemma_multiset_commutative(entries_of(x, a, q, fused), added);
        vstd::seq_lib::lemma_multiset_commutative(entries_of(x, b, q, fused), added);
        if n > item.1 {
            let one = entries_of(x, others(seen, n), q, fused).to_multiset();
            let two = entries_of(x, others(more, n), q, fused).to_multiset();
            assert(one =~= two.add(wanted.to_multiset()));
        }
    }
}

/// The clusters that were looked at and the others hold all vectors between them.
proof fn lemma_all_between_them(
    x: Index,
    q: Seq<i16>,
    fused: bool,
    seen: Seq<(i64, usize)>,
)
    requires
        distinct(seen),
        forall|j: int| 0 <= j < seen.len() ==> (#[trigger] seen[j]).1 < x.centroids.len(),
        x.centroids.len() <= usize::MAX,
    ensures
        every_entry(x, q, fused).to_multiset() == entries_of(x, seen, q, fused).to_multiset().add(
            entries_of(x, others(seen, x.centroids.len()), q, fused).to_multiset(),
        ),
    decreases seen.len(),
{
    broadcast use vstd::seq_lib::group_to_multiset_ensures;

    let k = x.centroids.len();
    if seen.len() == 0 {
        lemma_all_others(seen, k);
        assert(others(seen, k) =~= Seq::new(k, |c: int| (0i64, c as usize)));
        assert(entries_of(x, seen, q, fused).to_multiset().len() == 0);
        assert(every_entry(x, q, fused).to_multiset() =~= entries_of(
            x,
            seen,
            q,
            fused,
        ).to_multiset().add(entries_of(x, others(seen, k), q, fused).to_multiset()));
    } else {
        let fewer = seen.drop_last();
        let item = seen.last();
        assert(seen =~= fewer.push(item));
        assert forall|i: int, j: int| 0 <= i < j < fewer.len() implies (#[trigger] fewer[i]).1 != (
        #[trigger] fewer[j]).1 by {
            assert(seen[i].1 != seen[j].1);
        }
        assert forall|j: int| 0 <= j < fewer.len() implies (#[trigger] fewer[j]).1
            < x.centroids.len() by {
            assert(seen[j].1 < x.centroids.len());
        }
        assert(!was_probed(fewer, item.1 as int)) by {
            if was_probed(fewer, item.1 as int) {
                let j = choose|j: int| 0 <= j < fewer.len() && (#[trigger] fewer[j]).1 == item.1;
                assert(seen[j].1 != seen[seen.len() - 1].1);
            }
        }
        lemma_all_between_them(x, q, fused, fewer);
        lemma_others_push(x, q, fused, fewer, item, k);
        vstd::seq_lib::lemma_multiset_commutative(
            entries_of(x, fewer, q, fused),
            entries(x, item.1 as int, q, fused),
        );
        assert(every_entry(x, q, fused).to_multiset() =~= entries_of(
            x,
            seen,
            q,
            fused,
        ).to_multiset().add(entries_of(x, others(seen, k), q, fused).to_multiset()));
    }
}

proof fn lemma_all_others(seen: Seq<(i64, usize)>, n: nat)
    requires
        seen.len() == 0,
        n <= usize::MAX,
    ensures
        others(seen, n).len() == n,
        forall|c: int| 0 <= c < n ==> #[trigger] others(seen, n)[c] == (0i64, c as usize),
    decreases n,
{
    if n > 0 {
        lemma_all_others(seen, (n - 1) as nat);
    }
}

/// Another cluster is one of all, and was not looked at.
proof fn lemma_others(seen: Seq<(i64, usize)>, n: nat, j: int)
    requires
        0 <= j < others(seen, n).len(),
        n <= usize::MAX,
    ensures
        others(seen, n)[j].1 < n,
        !was_probed(seen, others(seen, n)[j].1 as int),
    decreases n,
{
    if n > 0 {
        if j < others(seen, (n - 1) as nat).len() {
            lemma_others(seen, (n - 1) as nat, j);
        }
    }
}

/// What stands among the vectors of clusters is a vector of one of them.
pub proof fn lemma_entry_from(
    x: Index,
    clusters: Seq<(i64, usize)>,
    q: Seq<i16>,
    fused: bool,
    e: int,
) -> (r: (int, int))
    requires
        0 <= e < entries_of(x, clusters, q, fused).len(),
    ensures
        0 <= r.0 < clusters.len(),
        0 <= r.1 < x.sizes[clusters[r.0].1 as int],
        entries_of(x, clusters, q, fused)[e] == entries(
            x,
            clusters[r.0].1 as int,
            q,
            fused,
        )[r.1],
    decreases clusters.len(),
{
    let before = entries_of(x, clusters.drop_last(), q, fused);
    if e < before.len() {
        let r = lemma_entry_from(x, clusters.drop_last(), q, fused, e);
        assert(clusters.drop_last()[r.0] == clusters[r.0]);
        r
    } else {
        (clusters.len() - 1, e - before.len())
    }
}

/// What is found is exact where no vector of another cluster is nearer, and where there
/// are such vectors only if five are found.
proof fn lemma_exact(x: Index, q: Seq<i16>, bits: Seq<u32>, n_probes: nat, fused: bool)
    requires
        bits.len() == x.centroids.len(),
        bits.len() <= usize::MAX,
        forall|c: int, i: int, j: int|
            0 <= c < x.centroids.len() && 0 <= i < x.sizes[c] && !was_probed(
                visited(x, q, bits, n_probes, fused),
                c,
            ) && 0 <= j < nearest(x, q, bits, n_probes, fused).len() ==> !nearer(
                (#[trigger] entries(x, c, q, fused)[i]).0,
                (#[trigger] nearest(x, q, bits, n_probes, fused)[j]).0,
            ),
        forall|c: int|
            0 <= c < x.centroids.len() && x.sizes[c] > 0 && !#[trigger] was_probed(
                visited(x, q, bits, n_probes, fused),
                c,
            ) ==> nearest(x, q, bits, n_probes, fused).len() == NEIGHBOURS,
    ensures
        exact(x, q, fused, nearest(x, q, bits, n_probes, fused)),
{
    broadcast use vstd::seq_lib::group_to_multiset_ensures;

    let k = x.centroids.len();
    let seen = visited(x, q, bits, n_probes, fused);
    let found = nearest(x, q, bits, n_probes, fused);
    let all = every_entry(x, q, fused);
    let rest = others(seen, k);
    let left = entries_of(x, rest, q, fused);
    let dropped = law_nearest_of_the_visited(x, q, bits, n_probes, fused);
    law_no_cluster_twice(x, q, bits, n_probes, fused);
    lemma_all_between_them(x, q, fused, seen);
    vstd::seq_lib::lemma_multiset_commutative(dropped, left);
    let given_up = dropped + left;
    assert(found.to_multiset().add(given_up.to_multiset()) =~= all.to_multiset());
    assert forall|i: int, j: int| 0 <= i < found.len() && 0 <= j < given_up.len() implies !nearer(
        (#[trigger] given_up[j]).0,
        (#[trigger] found[i]).0,
    ) by {
        if j < dropped.len() {
            assert(!nearer(dropped[j].0, found[i].0));
        } else {
            let (a, b) = lemma_entry_from(x, rest, q, fused, j - dropped.len());
            lemma_others(seen, k, a);
            let c = rest[a].1 as int;
            assert(given_up[j] == entries(x, c, q, fused)[b]);
        }
    }
    assert(splits(all, found, given_up));
    let looked_at = entries_of(x, seen, q, fused);
    assert(all.len() == looked_at.len() + left.len()) by {
        assert(all.to_multiset().len() == looked_at.to_multiset().add(left.to_multiset()).len());
        assert(all.to_multiset().len() == all.len());
        assert(looked_at.to_multiset().len() == looked_at.len());
        assert(left.to_multiset().len() == left.len());
    }
    if left.len() > 0 {
        let (a, b) = lemma_entry_from(x, rest, q, fused, 0);
        lemma_others(seen, k, a);
        assert(!was_probed(seen, rest[a].1 as int));
        assert(found.len() == NEIGHBOURS);
    }
}

/// A search that may probe every cluster looks at every cluster, and what it finds is
/// exact.
pub proof fn law_probing_all_clusters(
    x: Index,
    q: Seq<i16>,
    bits: Seq<u32>,
    n_probes: nat,
    fused: bool,
)
    requires
        bits.len() == x.centroids.len(),
        bits.len() <= usize::MAX,
        x.centroids.len() <= n_probes,
        x.centroids.len() <= MAX_PROBES,
    ensures
        forall|c: int|
            0 <= c < x.centroids.len() ==> #[trigger] was_probed(
                visited(x, q, bits, n_probes, fused),
                c,
            ),
        exact(x, q, fused, nearest(x, q, bits, n_probes, fused)),
{
    let probed = probes(x, bits, n_probes);
    let seen = visited(x, q, bits, n_probes, fused);
    let cap = probe_count(x.centroids.len(), n_probes);
    let all = by_centroid(bits);
    crate::selection::law_room_for_all(cap, all);
    let sized = with_sizes(x, all);
    assert forall|c: int| 0 <= c < x.centroids.len() implies #[trigger] was_probed(seen, c) by {
        let j = lemma_members_ranked(sized, c);
        assert(sized[c].1 == c);
        assert(probed[j].1 == c);
        assert(seen[j] == probed[j]);
    }
    lemma_exact(x, q, bits, n_probes, fused);
}

/// The scan of further clusters makes nothing worse: no vector found in the end is farther
/// than the farthest of those found among the probed clusters, and they are no fewer.
pub proof fn law_repair_never_worsens(
    x: Index,
    q: Seq<i16>,
    bits: Seq<u32>,
    n_probes: nat,
    fused: bool,
)
    ensures
        ({
            let probed = probes(x, bits, n_probes);
            let kept = scanned_all(x, Seq::empty(), probed, q, fused);
            let found = nearest(x, q, bits, n_probes, fused);
            &&& kept.len() <= found.len()
            &&& reach(kept, NEIGHBOURS as nat) is Some
            &&& forall|j: int|
                0 <= j < found.len() ==> !nearer(
                    reach(kept, NEIGHBOURS as nat),
                    (#[trigger] found[j]).0,
                )
        }),
{
    let none = Seq::<(Option<i64>, u8)>::empty();
    let probed = probes(x, bits, n_probes);
    let kept = scanned_all(x, none, probed, q, fused);
    lemma_scanned_all(x, none, probed, q, fused);
    lemma_entries_are_numbers(x, probed, q, fused);
    let dropped = crate::selection::law_nearest_are_kept(
        none,
        none,
        NEIGHBOURS as nat,
        entries_of(x, probed, q, fused),
    );
    if kept.len() == NEIGHBOURS {
        crate::selection::lemma_farthest_place(kept, kept.len());
        assert(kept[crate::selection::farthest(kept, kept.len())].0 is Some);
    }
    let v = reach(kept, NEIGHBOURS as nat)->Some_0;
    if !mixed(kept) && near_enough(kept) {
        lemma_stays_within(kept, NEIGHBOURS as nat, none, v);
    } else {
        let rest = candidates(x, q, kept, probed);
        let m = repair_length(x, q, kept, rest, fused);
        lemma_repaired(x, q, kept, rest, fused);
        let later = entries_of(x, rest.take(m as int), q, fused);
        lemma_entries_are_numbers(x, rest.take(m as int), q, fused);
        let more = crate::selection::law_nearest_are_kept(kept, dropped, NEIGHBOURS as nat, later);
        lemma_stays_within(kept, NEIGHBOURS as nat, later, v);
    }
}

/// Whether no vector is measured nearer than the bounds of its cluster.
pub open spec fn bounds_hold(x: Index, q: Seq<i16>, fused: bool) -> bool {
    forall|c: int, i: int|
        0 <= c < x.centroids.len() && 0 <= i < x.sizes[c] ==> lower_bound(x, c, q)
            <= #[trigger] measured(x, c, i, q, fused)
}

/// Where every vector lies within the bounds of its cluster and every squared distance is
/// under 2^24, no vector is measured nearer than the bounds of its cluster.
pub proof fn law_bounds_hold(x: Index, q: Seq<i16>, fused: bool)
    requires
        x.shaped(),
        x.encloses(),
        forall|c: int, i: int|
            0 <= c < x.centroids.len() && 0 <= i < x.sizes[c] ==> squared(
                q,
                #[trigger] x.vector(c, i),
                DIM as nat,
            ) < EXACT_BELOW,
    ensures
        bounds_hold(x, q, fused),
        forall|c: int, i: int|
            0 <= c < x.centroids.len() && 0 <= i < x.sizes[c] ==> #[trigger] measured(
                x,
                c,
                i,
                q,
                fused,
            ) == squared(q, x.vector(c, i), DIM as nat),
{
    assert forall|c: int, i: int| 0 <= c < x.centroids.len() && 0 <= i < x.sizes[c] implies (
    lower_bound(x, c, q) <= #[trigger] measured(x, c, i, q, fused) && measured(x, c, i, q, fused)
        == squared(q, x.vector(c, i), DIM as nat)) by {
        let v = x.vector(c, i);
        assert(squared(q, v, DIM as nat) < EXACT_BELOW);
        crate::distance::law_small_distances_are_exact(q, v, DIM as nat, fused);
        assert forall|d: int| 0 <= d < DIM implies x.mins[c][d] <= #[trigger] v[d]
            <= x.maxs[c][d] by {
            assert(x.mins[c][d] <= x.vector(c, i)[d] <= x.maxs[c][d]);
        }
        crate::distance::law_box_is_nearer(q, v, x.mins[c], x.maxs[c], DIM as nat);
    }
}

/// Whether nothing in `s` is farther than `v`.
pub open spec fn within(s: Seq<(Option<i64>, u8)>, v: i64) -> bool {
    forall|j: int| 0 <= j < s.len() ==> !nearer(Some(v), (#[trigger] s[j]).0)
}

pub proof fn lemma_stays_within(
    s: Seq<(Option<i64>, u8)>,
    cap: nat,
    items: Seq<(Option<i64>, u8)>,
    v: i64,
)
    requires
        numbers(s),
        numbers(items),
        s.len() <= cap,
        cap > 0,
        !nearer(Some(v), reach(s, cap)),
    ensures
        within(keep_all(s, cap, items), v),
    decreases items.len(),
{
    if s.len() < cap {
        assert(v == crate::selection::BEYOND);
    } else {
        lemma_full_stays_within(s, cap, items, v);
    }
}

proof fn lemma_full_stays_within(
    s: Seq<(Option<i64>, u8)>,
    cap: nat,
    items: Seq<(Option<i64>, u8)>,
    v: i64,
)
    requires
        numbers(s),
        s.len() == cap,
        cap > 0,
        !nearer(Some(v), reach(s, cap)),
    ensures
        within(keep_all(s, cap, items), v),
        keep_all(s, cap, items).len() == cap,
    decreases items.len(),
{
    if items.len() == 0 {
        crate::selection::lemma_farthest(s, s.len());
        assert(s[crate::selection::farthest(s, s.len())].0 is Some);
        assert forall|j: int| 0 <= j < s.len() implies !nearer(Some(v), (#[trigger] s[j]).0) by {
            assert(s[j].0 is Some);
        }
    } else {
        lemma_full_stays_within(s, cap, items.drop_last(), v);
        let mid = keep_all(s, cap, items.drop_last());
        let kept = keep_all(s, cap, items);
        crate::selection::lemma_farthest_place(mid, mid.len());
        assert forall|j: int| 0 <= j < kept.len() implies !nearer(
            Some(v),
            (#[trigger] kept[j]).0,
        ) by {
            assert(!nearer(Some(v), mid[j].0));
            assert(!nearer(
                Some(v),
                mid[crate::selection::farthest(mid, mid.len())].0,
            ));
        }
    }
}

/// The scan of further clusters ends before a cluster only where no vector of it can be
/// nearer, if those found are of both kinds.
proof fn lemma_repair_stops(
    x: Index,
    q: Seq<i16>,
    kept: Seq<(Option<i64>, u8)>,
    rest: Seq<(i64, usize)>,
    fused: bool,
)
    requires
        mixed(repaired(x, q, kept, rest, fused)),
        repair_length(x, q, kept, rest, fused) < rest.len(),
    ensures
        !nearer(
            Some(rest[repair_length(x, q, kept, rest, fused) as int].0),
            reach(repaired(x, q, kept, rest, fused), NEIGHBOURS as nat),
        ),
    decreases rest.len(),
{
    if rest.len() > 0 && nearer(Some(rest[0].0), reach(kept, NEIGHBOURS as nat)) {
        let now = scanned(x, kept, rest[0].1 as int, q, fused);
        if mixed(now) {
            lemma_repair_stops(x, q, now, rest.drop_first(), fused);
        }
    }
}

/// Clusters that were probed and clusters that may hold a nearer vector are no more than
/// there are clusters.
pub proof fn lemma_promising_fit(
    x: Index,
    q: Seq<i16>,
    kept: Seq<(Option<i64>, u8)>,
    probed: Seq<(i64, usize)>,
)
    requires
        x.centroids.len() <= usize::MAX,
        distinct(probed),
        forall|j: int| 0 <= j < probed.len() ==> (#[trigger] probed[j]).1 < x.centroids.len(),
    ensures
        promising_of(x, q, kept, probed, x.centroids.len()).len() + probed.len()
            <= x.centroids.len(),
{
    let k = x.centroids.len();
    let s = promising_of(x, q, kept, probed, k);
    lemma_promising(x, q, kept, probed, k);
    let tags = Seq::new(
        probed.len() + s.len(),
        |i: int|
            if i < probed.len() {
                probed[i].1 as int
            } else {
                s[i - probed.len()].1 as int
            },
    );
    assert(tags.no_duplicates()) by {
        assert forall|i: int, j: int|
            0 <= i < tags.len() && 0 <= j < tags.len() && i != j implies tags[i] != tags[j] by {
            let (a, b) = if i < j {
                (i, j)
            } else {
                (j, i)
            };
            if b < probed.len() {
                assert(probed[a].1 != probed[b].1);
            } else if a < probed.len() {
                assert(promising(x, q, kept, probed, s[b - probed.len()].1 as int));
                assert(probed[a].1 == tags[a]);
            } else {
                assert(s[a - probed.len()].1 < s[b - probed.len()].1);
            }
        }
    }
    tags.unique_seq_to_set();
    vstd::set_lib::lemma_int_range(0, k as int);
    assert(tags.to_set().subset_of(vstd::set_lib::set_int_range(0, k as int))) by {
        assert forall|t: int| tags.to_set().contains(t) implies 0 <= t < k by {
            let i = choose|i: int| 0 <= i < tags.len() && tags[i] == t;
            if i < probed.len() {
                assert(probed[i].1 < k);
            } else {
                assert(s[i - probed.len()].1 < k);
            }
        }
    }
    vstd::set_lib::lemma_len_subset(
        tags.to_set(),
        vstd::set_lib::set_int_range(0, k as int),
    );
}

/// Where the vectors that the search found are of both kinds, what it found is exact. This
/// needs bounds that hold, and no more clusters besides the probed ones than the search
/// can remember.
pub proof fn law_mixed_results_are_exact(
    x: Index,
    q: Seq<i16>,
    bits: Seq<u32>,
    n_probes: nat,
    fused: bool,
)
    requires
        bits.len() == x.centroids.len(),
        bits.len() <= usize::MAX,
        bounds_hold(x, q, fused),
        x.centroids.len() - probe_count(x.centroids.len(), n_probes) <= MAX_PROBES,
        mixed(nearest(x, q, bits, n_probes, fused)),
    ensures
        exact(x, q, fused, nearest(x, q, bits, n_probes, fused)),
{
    let found = nearest(x, q, bits, n_probes, fused);
    let seen = visited(x, q, bits, n_probes, fused);
    assert forall|c: int| 0 <= c < x.centroids.len() && x.sizes[c] > 0 && !#[trigger] was_probed(
        seen,
        c,
    ) implies found.len() == NEIGHBOURS by {
        assert(lower_bound(x, c, q) <= measured(x, c, 0, q, fused));
        crate::probing::lemma_measured_bound(x, c, 0, q, fused);
        lemma_unvisited(x, q, bits, n_probes, fused, c);
    }
    assert forall|c: int, i: int, j: int|
        0 <= c < x.centroids.len() && 0 <= i < x.sizes[c] && !was_probed(seen, c) && 0 <= j
            < found.len() implies !nearer(
        (#[trigger] entries(x, c, q, fused)[i]).0,
        (#[trigger] found[j]).0,
    ) by {
        assert(lower_bound(x, c, q) <= measured(x, c, i, q, fused));
        crate::probing::lemma_measured_bound(x, c, i, q, fused);
        lemma_unvisited(x, q, bits, n_probes, fused, c);
        assert(!nearer(Some(lower_bound(x, c, q) as i64), found[j].0));
    }
    lemma_exact(x, q, bits, n_probes, fused);
}

/// Where a cluster was not looked at, five vectors are found, and none is farther than the
/// bounds of that cluster.
proof fn lemma_unvisited(
    x: Index,
    q: Seq<i16>,
    bits: Seq<u32>,
    n_probes: nat,
    fused: bool,
    c: int,
)
    requires
        bits.len() == x.centroids.len(),
        bits.len() <= usize::MAX,
        x.centroids.len() - probe_count(x.centroids.len(), n_probes) <= MAX_PROBES,
        mixed(nearest(x, q, bits, n_probes, fused)),
        0 <= c < x.centroids.len(),
        x.sizes[c] > 0,
        !was_probed(visited(x, q, bits, n_probes, fused), c),
        lower_bound(x, c, q) < 0x40_0000_0000,
    ensures
        within(nearest(x, q, bits, n_probes, fused), lower_bound(x, c, q) as i64),
        nearest(x, q, bits, n_probes, fused).len() == NEIGHBOURS,
{
    let none = Seq::<(Option<i64>, u8)>::empty();
    let found = nearest(x, q, bits, n_probes, fused);
    let seen = visited(x, q, bits, n_probes, fused);
    let k = x.centroids.len();
    let probed = probes(x, bits, n_probes);
    let kept = scanned_all(x, none, probed, q, fused);
    let bound = lower_bound(x, c, q) as i64;
    lemma_probes(x, bits, n_probes);
    lemma_scanned_all(x, none, probed, q, fused);
    lemma_entries_are_numbers(x, probed, q, fused);
    let _dropped = crate::selection::law_nearest_are_kept(
        none,
        none,
        NEIGHBOURS as nat,
        entries_of(x, probed, q, fused),
    );
    let rest = candidates(x, q, kept, probed);
    let m = repair_length(x, q, kept, rest, fused);
    lemma_repaired(x, q, kept, rest, fused);
    let later = rest.take(m as int);
    lemma_entries_are_numbers(x, later, q, fused);
    let _more = crate::selection::law_nearest_are_kept(
        kept,
        _dropped,
        NEIGHBOURS as nat,
        entries_of(x, later, q, fused),
    );
    assert(!was_probed(probed, c)) by {
        if was_probed(probed, c) {
            let j = choose|j: int| 0 <= j < probed.len() && (#[trigger] probed[j]).1 == c;
            assert(seen[j].1 == c);
        }
    }
    if !promising(x, q, kept, probed, c) {
        lemma_stays_within(kept, NEIGHBOURS as nat, entries_of(x, later, q, fused), bound);
    } else {
        lemma_promising(x, q, kept, probed, k);
        lemma_promising_fit(x, q, kept, probed);
        let all = promising_of(x, q, kept, probed, k);
        let cap = candidate_count(k, probed.len());
        crate::selection::law_room_for_all(cap, all);
        let a = choose|a: int| 0 <= a < all.len() && (#[trigger] all[a]).1 == c;
        let bounds = plain(all);
        assert(all[a].0 == Some(bound));
        let b = lemma_members_ranked(bounds, a);
        assert(rest[b] == (bound, c as usize));
        assert(m <= b) by {
            if b < m {
                assert(later[b] == rest[b]);
                assert(seen[probed.len() + b].1 == c);
            }
        }
        lemma_repair_stops(x, q, kept, rest, fused);
        crate::selection::law_ranked_is_in_order(bounds);
        assert(rest[m as int].0 <= rest[b].0);
        assert(!nearer(Some(bound), reach(found, NEIGHBOURS as nat))) by {
            assert(!nearer(Some(rest[m as int].0), reach(found, NEIGHBOURS as nat)));
        }
        lemma_stays_within(found, NEIGHBOURS as nat, Seq::empty(), bound);
    }
}

/// Where the vectors and labels of every cluster are there, every query can be answered.
pub proof fn law_whole_indexes_answer(
    x: Index,
    q: Seq<i16>,
    bits: Seq<u32>,
    n_probes: nat,
    fused: bool,
)
    requires
        x.shaped(),
        x.laid_out(),
        bits.len() == x.centroids.len(),
        bits.len() <= usize::MAX,
    ensures
        can_search(x, q, bits, n_probes, fused),
{
    let probed = probes(x, bits, n_probes);
    let kept = scanned_all(x, Seq::empty(), probed, q, fused);
    let rest = candidates(x, q, kept, probed);
    lemma_probes(x, bits, n_probes);
    lemma_candidates(x, q, kept, probed);
    crate::probing::lemma_repair_length(x, q, kept, rest, fused);
    assert(held(x, probed));
    assert(held(x, rest));
}

} // verus!
