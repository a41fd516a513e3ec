//! Keeping the nearest few of many, and putting them in order.
//!
//! A distance is `None` where it is not a number: it is then neither nearer nor farther
//! than any other.
use vstd::prelude::*;

verus! {

/// Stands for a distance beyond all others.
pub const BEYOND: i64 = 0x7fff_ffff_ffff_ffff;

/// Whether `a` is the smaller of two distances.
pub open spec fn nearer(a: Option<i64>, b: Option<i64>) -> bool {
    match (a, b) {
        (Some(x), Some(y)) => x < y,
        _ => false,
    }
}

/// Whether `a` is the smaller of two distances.
pub fn is_nearer(a: Option<i64>, b: Option<i64>) -> (r: bool)
    ensures
        r == nearer(a, b),
{
    match (a, b) {
        (Some(x), Some(y)) => x < y,
        _ => false,
    }
}

/// The first place among the first `n` whose distance none of them exceeds.
pub open spec fn farthest<T>(s: Seq<(Option<i64>, T)>, n: nat) -> int
    decreases n,
{
    if n <= 1 {
        0
    } else {
        let before = farthest(s, (n - 1) as nat);
        if nearer(s[before].0, s[n - 1].0) {
            n - 1
        } else {
            before
        }
    }
}

/// What is kept of `s` and one item more: the list grows up to `cap` items, then a nearer
/// item takes the place of the farthest.
pub open spec fn keep<T>(s: Seq<(Option<i64>, T)>, cap: nat, item: (Option<i64>, T)) -> Seq<
    (Option<i64>, T),
> {
    if s.len() < cap {
        s.push(item)
    } else if s.len() > 0 && nearer(item.0, s[farthest(s, s.len())].0) {
        s.update(farthest(s, s.len()), item)
    } else {
        s
    }
}

/// What is kept of `s` and all `items`, one after the other.
pub open spec fn keep_all<T>(
    s: Seq<(Option<i64>, T)>,
    cap: nat,
    items: Seq<(Option<i64>, T)>,
) -> Seq<(Option<i64>, T)>
    decreases items.len(),
{
    if items.len() == 0 {
        s
    } else {
        keep(keep_all(s, cap, items.drop_last()), cap, items.last())
    }
}

/// The distance that an item must beat to get into a list of `cap` items.
pub open spec fn reach<T>(s: Seq<(Option<i64>, T)>, cap: nat) -> Option<i64> {
    if s.len() < cap || s.len() == 0 {
        Some(BEYOND)
    } else {
        s[farthest(s, s.len())].0
    }
}

/// A list of at most `cap` items that keeps the nearest.
pub struct Shortlist<T> {
    items: Vec<(Option<i64>, T)>,
    cap: usize,
}

impl<T> View for Shortlist<T> {
    type V = Seq<(Option<i64>, T)>;

    closed spec fn view(&self) -> Seq<(Option<i64>, T)> {
        self.items@
    }
}

impl<T: Copy> Shortlist<T> {
    /// How many items the list keeps.
    pub closed spec fn capacity(&self) -> nat {
        self.cap as nat
    }

    pub open spec fn wf(&self) -> bool {
        self@.len() <= self.capacity()
    }

    pub fn new(cap: usize) -> (r: Self)
        ensures
            r.wf(),
            r.capacity() == cap,
            r@ == Seq::<(Option<i64>, T)>::empty(),
    {
        Shortlist { items: Vec::new(), cap }
    }

    pub fn len(&self) -> (r: usize)
        ensures
            r == self@.len(),
    {
        self.items.len()
    }

    /// The item at place `i`.
    pub fn get(&self, i: usize) -> (r: (Option<i64>, T))
        requires
            i < self@.len(),
        ensures
            r == self@[i as int],
    {
        self.items[i]
    }

    /// The place of the farthest item.
    fn farthest_place(&self) -> (r: usize)
        requires
            self@.len() > 0,
        ensures
            r == farthest(self@, self@.len()),
            r < self@.len(),
    {
        let mut place: usize = 0;
        let mut i: usize = 1;
        while i < self.items.len()
            invariant
                1 <= i <= self@.len(),
                self@ == self.items@,
                place == farthest(self@, i as nat),
                place < i,
            decreases self.items.len() - i,
        {
            if is_nearer(self.items[place].0, self.items[i].0) {
                place = i;
            }
            i += 1;
        }
        place
    }

    /// Offers an item to the list.
    pub fn push(&mut self, dist: Option<i64>, item: T)
        requires
            old(self).wf(),
        ensures
            final(self).wf(),
            final(self).capacity() == old(self).capacity(),
            final(self)@ == keep(old(self)@, old(self).capacity(), (dist, item)),
    {
        if self.items.len() < self.cap {
            self.items.push((dist, item));
            return;
        }
        if self.items.len() == 0 {
            return;
        }
        let place = self.farthest_place();
        if is_nearer(dist, self.items[place].0) {
            self.items.set(place, (dist, item));
        }
    }

    /// The distance that an item must beat to get into the list.
    pub fn max_dist(&self) -> (r: Option<i64>)
        requires
            self.wf(),
        ensures
            r == reach(self@, self.capacity()),
    {
        if self.items.len() < self.cap || self.items.len() == 0 {
            return Some(BEYOND);
        }
        let place = self.farthest_place();
        self.items[place].0
    }
}

/// Puts an item behind all that are not above it.
pub open spec fn insert_ranked<T>(s: Seq<(i64, T)>, item: (i64, T)) -> Seq<(i64, T)>
    decreases s.len(),
{
    if s.len() == 0 || s.last().0 <= item.0 {
        s.push(item)
    } else {
        insert_ranked(s.drop_last(), item).push(s.last())
    }
}

/// The items in the order of their ranks, those of one rank in the order they had.
pub open spec fn ranked<T>(s: Seq<(i64, T)>) -> Seq<(i64, T)>
    decreases s.len(),
{
    if s.len() == 0 {
        s
    } else {
        insert_ranked(ranked(s.drop_last()), s.last())
    }
}

proof fn lemma_insert_ranked<T>(s: Seq<(i64, T)>, item: (i64, T), at: int)
    requires
        0 <= at <= s.len(),
        at > 0 ==> s[at - 1].0 <= item.0,
        forall|j: int| at <= j < s.len() ==> item.0 < s[j].0,
    ensures
        insert_ranked(s, item) == s.insert(at, item),
    decreases s.len(),
{
    if at < s.len() {
        lemma_insert_ranked(s.drop_last(), item, at);
        assert(s.drop_last().insert(at, item).push(s.last()) =~= s.insert(at, item));
    } else {
        assert(s.push(item) =~= s.insert(at, item));
    }
}

/// Puts the items in the order of their ranks, those of one rank in the order they had.
pub fn sort_by_rank<T: Copy>(items: &Vec<(i64, T)>) -> (r: Vec<(i64, T)>)
    ensures
        r@ == ranked(items@),
{
    let mut sorted: Vec<(i64, T)> = Vec::new();
    let mut i: usize = 0;
    while i < items.len()
        invariant
            i <= items.len(),
            sorted@ == ranked(items@.take(i as int)),
            sorted.len() == i,
        decreases items.len() - i,
    {
        let item = items[i];
        let mut at: usize = sorted.len();
        while at > 0 && item.0 < sorted[at - 1].0
            invariant
                at <= sorted.len(),
                forall|j: int| at <= j < sorted.len() ==> item.0 < sorted@[j].0,
            decreases at,
        {
            at -= 1;
        }
        proof {
            lemma_insert_ranked(sorted@, item, at as int);
            assert(items@.take(i + 1).drop_last() =~= items@.take(i as int));
        }
        sorted.insert(at, item);
        i += 1;
    }
    assert(items@.take(items.len() as int) =~= items@);
    sorted
}

/// Whether every distance is a number.
pub open spec fn numbers<T>(s: Seq<(Option<i64>, T)>) -> bool {
    forall|i: int| 0 <= i < s.len() ==> (#[trigger] s[i]).0 is Some
}

/// Whether nothing in `b` is nearer than anything in `a`.
pub open spec fn not_beyond<T>(a: Seq<(Option<i64>, T)>, b: Seq<(Option<i64>, T)>) -> bool {
    forall|i: int, j: int|
        0 <= i < a.len() && 0 <= j < b.len() ==> !nearer((#[trigger] b[j]).0, (#[trigger] a[i]).0)
}

pub proof fn lemma_farthest<T>(s: Seq<(Option<i64>, T)>, n: nat)
    requires
        numbers(s),
        1 <= n <= s.len(),
    ensures
        0 <= farthest(s, n) < n,
        forall|j: int| 0 <= j < n ==> !nearer(s[farthest(s, n)].0, (#[trigger] s[j]).0),
    decreases n,
{
    if n > 1 {
        lemma_farthest(s, (n - 1) as nat);
        assert(s[farthest(s, (n - 1) as nat)].0 is Some);
        assert(s[n - 1].0 is Some);
    }
}

pub proof fn lemma_farthest_place<T>(s: Seq<(Option<i64>, T)>, n: nat)
    requires
        1 <= n,
    ensures
        0 <= farthest(s, n) < n,
    decreases n,
{
    if n > 1 {
        lemma_farthest_place(s, (n - 1) as nat);
    }
}

proof fn lemma_keep<T>(
    s: Seq<(Option<i64>, T)>,
    dropped: Seq<(Option<i64>, T)>,
    cap: nat,
    item: (Option<i64>, T),
) -> (now: Seq<(Option<i64>, T)>)
    requires
        numbers(s),
        numbers(dropped),
        item.0 is Some,
        s.len() <= cap,
        dropped.len() > 0 ==> s.len() == cap,
        not_beyond(s, dropped),
    ensures
        numbers(keep(s, cap, item)),
        numbers(now),
        keep(s, cap, item).len() <= cap,
        keep(s, cap, item).len() + now.len() == s.len() + dropped.len() + 1,
        now.len() > 0 ==> keep(s, cap, item).len() == cap,
        not_beyond(keep(s, cap, item), now),
        keep(s, cap, item).to_multiset().add(now.to_multiset()) == s.to_multiset().add(
            dropped.to_multiset(),
        ).insert(item),
{
    broadcast use vstd::seq_lib::group_to_multiset_ensures;

    let kept = keep(s, cap, item);
    if s.len() < cap {
        assert(kept.to_multiset().add(dropped.to_multiset()) =~= s.to_multiset().add(
            dropped.to_multiset(),
        ).insert(item));
        dropped
    } else if s.len() > 0 && nearer(item.0, s[farthest(s, s.len())].0) {
        let p = farthest(s, s.len());
        lemma_farthest(s, s.len());
        let out = s[p];
        let now = dropped.push(out);
        assert(kept =~= s.remove(p).insert(p, item));
        assert(kept.to_multiset() == s.to_multiset().remove(out).insert(item));
        assert(s.to_multiset().count(out) > 0);
        assert(kept.to_multiset().add(now.to_multiset()) =~= s.to_multiset().add(
            dropped.to_multiset(),
        ).insert(item));
        assert forall|i: int, j: int| 0 <= i < kept.len() && 0 <= j < now.len() implies !nearer(
            (#[trigger] now[j]).0,
            (#[trigger] kept[i]).0,
        ) by {
            assert(s[i].0 is Some);
            assert(!nearer(s[p].0, s[i].0));
            if j < dropped.len() {
                assert(now[j] == dropped[j]);
                assert(!nearer(dropped[j].0, s[i].0));
                assert(!nearer(dropped[j].0, s[p].0));
            }
        }
        now
    } else {
        let now = dropped.push(item);
        if s.len() > 0 {
            lemma_farthest(s, s.len());
        }
        assert(kept.to_multiset().add(now.to_multiset()) =~= s.to_multiset().add(
            dropped.to_multiset(),
        ).insert(item));
        assert forall|i: int, j: int| 0 <= i < kept.len() && 0 <= j < now.len() implies !nearer(
            (#[trigger] now[j]).0,
            (#[trigger] kept[i]).0,
        ) by {
            assert(s[i].0 is Some);
            assert(s[farthest(s, s.len())].0 is Some);
            assert(!nearer(s[farthest(s, s.len())].0, s[i].0));
            if j < dropped.len() {
                assert(now[j] == dropped[j]);
            }
        }
        now
    }
}

/// A list to which items are offered one after the other keeps as many as it may, loses
/// none and invents none, and nothing that it gave up is nearer than what it kept. What
/// it gave up before may be handed in; what it has given up in all is handed back.
pub proof fn law_nearest_are_kept<T>(
    s: Seq<(Option<i64>, T)>,
    dropped: Seq<(Option<i64>, T)>,
    cap: nat,
    items: Seq<(Option<i64>, T)>,
) -> (now: Seq<(Option<i64>, T)>)
    requires
        numbers(s),
        numbers(dropped),
        numbers(items),
        s.len() <= cap,
        dropped.len() > 0 ==> s.len() == cap,
        not_beyond(s, dropped),
    ensures
        numbers(keep_all(s, cap, items)),
        numbers(now),
        keep_all(s, cap, items).len() <= cap,
        keep_all(s, cap, items).len() + now.len() == s.len() + dropped.len() + items.len(),
        now.len() > 0 ==> keep_all(s, cap, items).len() == cap,
        not_beyond(keep_all(s, cap, items), now),
        keep_all(s, cap, items).to_multiset().add(now.to_multiset()) == s.to_multiset().add(
            dropped.to_multiset(),
        ).add(items.to_multiset()),
    decreases items.len(),
{
    broadcast use vstd::seq_lib::group_to_multiset_ensures;

    if items.len() == 0 {
        assert(items.to_multiset().len() == 0);
        assert(s.to_multiset().add(dropped.to_multiset()).add(items.to_multiset())
            =~= s.to_multiset().add(dropped.to_multiset()));
        dropped
    } else {
        let fewer = items.drop_last();
        assert forall|i: int| 0 <= i < fewer.len() implies (#[trigger] fewer[i]).0 is Some by {
            assert(items[i].0 is Some);
        }
        let before = law_nearest_are_kept(s, dropped, cap, fewer);
        let mid = keep_all(s, cap, fewer);
        assert(items.last().0 is Some);
        let now = lemma_keep(mid, before, cap, items.last());
        assert(items =~= fewer.push(items.last()));
        assert(items.to_multiset() == fewer.to_multiset().insert(items.last()));
        assert(keep_all(s, cap, items).to_multiset().add(now.to_multiset()) =~= s.to_multiset().add(
            dropped.to_multiset(),
        ).add(items.to_multiset()));
        now
    }
}

/// A list with room for everything keeps everything, in the order it came.
pub proof fn law_room_for_all<T>(cap: nat, items: Seq<(Option<i64>, T)>)
    requires
        items.len() <= cap,
    ensures
        keep_all(Seq::empty(), cap, items) == items,
    decreases items.len(),
{
    if items.len() > 0 {
        law_room_for_all(cap, items.drop_last());
        assert(items.drop_last().push(items.last()) =~= items);
    } else {
        assert(items =~= Seq::empty());
    }
}

/// Whatever the distances, a list keeps only what it was offered, and as many items as it
/// may.
pub proof fn law_kept_were_offered<T>(cap: nat, items: Seq<(Option<i64>, T)>)
    ensures
        keep_all(Seq::empty(), cap, items).len() == if items.len() <= cap {
            items.len()
        } else {
            cap
        },
        forall|i: int|
            0 <= i < keep_all(Seq::empty(), cap, items).len() ==> items.contains(
                #[trigger] keep_all(Seq::empty(), cap, items)[i],
            ),
    decreases items.len(),
{
    if items.len() > 0 {
        let fewer = items.drop_last();
        let mid = keep_all(Seq::empty(), cap, fewer);
        let kept = keep_all(Seq::empty(), cap, items);
        law_kept_were_offered(cap, fewer);
        if mid.len() > 0 {
            lemma_farthest_place(mid, mid.len());
        }
        assert forall|i: int| 0 <= i < kept.len() implies items.contains(#[trigger] kept[i]) by {
            if kept[i] == items.last() {
                assert(items[items.len() - 1] == kept[i]);
            } else {
                assert(mid[i] == kept[i]);
                let j = choose|j: int| 0 <= j < fewer.len() && fewer[j] == mid[i];
                assert(items[j] == kept[i]);
            }
        }
    }
}

proof fn lemma_insert_order<T>(s: Seq<(i64, T)>, item: (i64, T))
    requires
        forall|i: int, j: int| 0 <= i <= j < s.len() ==> (#[trigger] s[i]).0 <= (#[trigger] s[j]).0,
    ensures
        forall|i: int, j: int|
            0 <= i <= j < insert_ranked(s, item).len() ==> (#[trigger] insert_ranked(s, item)[i]).0
                <= (#[trigger] insert_ranked(s, item)[j]).0,
        insert_ranked(s, item).len() == s.len() + 1,
        insert_ranked(s, item).to_multiset() == s.to_multiset().insert(item),
        insert_ranked(s, item).last().0 == item.0 || (s.len() > 0 && insert_ranked(s, item).last().0
            == s.last().0),
        insert_ranked(s, item).last().0 >= item.0,
    decreases s.len(),
{
    broadcast use vstd::seq_lib::group_to_multiset_ensures;

    let r = insert_ranked(s, item);
    if !(s.len() == 0 || s.last().0 <= item.0) {
        let t = s.drop_last();
        lemma_insert_order(t, item);
        let u = insert_ranked(t, item);
        assert(r == u.push(s.last()));
        if t.len() > 0 {
            assert(t.last() == s[s.len() - 2]);
        }
        assert(s =~= t.push(s.last()));
        assert(r.to_multiset() =~= s.to_multiset().insert(item));
        assert forall|i: int, j: int| 0 <= i <= j < r.len() implies (#[trigger] r[i]).0 <= (
        #[trigger] r[j]).0 by {
            if j < u.len() {
                assert(u[i].0 <= u[j].0);
            } else if i < u.len() {
                assert(u[i].0 <= u[u.len() - 1].0);
            }
        }
    }
}

/// Sorting gives the items in the order of their ranks, loses none and invents none.
pub proof fn law_ranked_is_in_order<T>(s: Seq<(i64, T)>)
    ensures
        forall|i: int, j: int|
            0 <= i <= j < ranked(s).len() ==> (#[trigger] ranked(s)[i]).0 <= (#[trigger] ranked(
                s,
            )[j]).0,
        ranked(s).len() == s.len(),
        ranked(s).to_multiset() == s.to_multiset(),
    decreases s.len(),
{
    broadcast use vstd::seq_lib::group_to_multiset_ensures;

    if s.len() > 0 {
        law_ranked_is_in_order(s.drop_last());
        lemma_insert_order(ranked(s.drop_last()), s.last());
        assert(s =~= s.drop_last().push(s.last()));
    }
}

/// What comes out of a sort went in.
pub proof fn lemma_ranked_members<T>(s: Seq<(i64, T)>, i: int)
    requires
        0 <= i < ranked(s).len(),
    ensures
        s.contains(ranked(s)[i]),
{
    broadcast use vstd::seq_lib::group_to_multiset_ensures;

    law_ranked_is_in_order(s);
    assert(ranked(s).contains(ranked(s)[i]));
    assert(ranked(s).to_multiset().count(ranked(s)[i]) > 0);
}

/// A list that has room takes an item behind the others. In a full one the farthest gives
/// way to an item that is nearer, the first of them where several are equally far; an item
/// that is no nearer, or whose distance is no number, changes nothing.
pub proof fn law_farthest_gives_way<T>(
    s: Seq<(Option<i64>, T)>,
    cap: nat,
    item: (Option<i64>, T),
    p: int,
)
    requires
        forall|j: int| 0 <= j < s.len() ==> (#[trigger] s[j]).0 is Some,
        s.len() == cap ==> 0 <= p < s.len() && (forall|j: int|
            0 <= j < s.len() ==> (#[trigger] s[j]).0->Some_0 <= s[p].0->Some_0) && (forall|j: int|
            0 <= j < p ==> (#[trigger] s[j]).0->Some_0 < s[p].0->Some_0),
    ensures
        s.len() < cap ==> keep(s, cap, item) == s.push(item),
        s.len() == cap && item.0 is Some && item.0->Some_0 < s[p].0->Some_0 ==> keep(s, cap, item)
            == s.update(p, item),
        s.len() == cap && !(item.0 is Some && item.0->Some_0 < s[p].0->Some_0) ==> keep(
            s,
            cap,
            item,
        ) == s,
{
    if s.len() == cap {
        lemma_first_farthest(s, s.len(), p);
    }
}

proof fn lemma_first_farthest<T>(s: Seq<(Option<i64>, T)>, n: nat, p: int)
    requires
        forall|j: int| 0 <= j < s.len() ==> (#[trigger] s[j]).0 is Some,
        0 <= p < n <= s.len(),
        forall|j: int| 0 <= j < n ==> (#[trigger] s[j]).0->Some_0 <= s[p].0->Some_0,
        forall|j: int| 0 <= j < p ==> (#[trigger] s[j]).0->Some_0 < s[p].0->Some_0,
    ensures
        farthest(s, n) == p,
    decreases n,
{
    lemma_farthest(s, n);
    let f = farthest(s, n);
    assert(s[f].0 is Some && s[p].0 is Some);
    assert(!nearer(s[f].0, s[p].0));
    if n > 1 && p < n - 1 {
        lemma_first_farthest(s, (n - 1) as nat, p);
        assert(s[n - 1].0 is Some);
        assert(s[n - 1].0->Some_0 <= s[p].0->Some_0);
    } else if n > 1 {
        lemma_farthest(s, (n - 1) as nat);
        let before = farthest(s, (n - 1) as nat);
        assert(s[before].0->Some_0 < s[p].0->Some_0);
        assert(s[before].0 is Some);
    }
}

} // verus!
