//! The decisions of the load balancer: which upstream gets a client, when to accept, and
//! how long to try to connect.
use vstd::prelude::*;

verus! {

/// How often a connection to an upstream is tried.
pub const CONNECT_ATTEMPTS: usize = 200;

/// How long to wait after an attempt that failed, in milliseconds.
pub const CONNECT_PAUSE_MS: u64 = 50;

/// The upstream that is tried at `offset`, when `first` is tried first.
pub open spec fn upstream_at(first: int, offset: int, n: int) -> int {
    (first + offset) % n
}

/// What comes next for a client.
#[derive(Clone, Copy, Debug, PartialEq, Eq, Structural)]
pub enum DispatchStep {
    /// Offer it to this upstream, without waiting.
    Offer(usize),
    /// Hand it to this upstream, waiting if need be.
    Insist(usize),
    /// It has been handed over.
    Done,
}

/// The upstream that is tried first for the next client.
pub fn next_first(rr: &mut usize, n: usize) -> (r: usize)
    requires
        n > 0,
    ensures
        r == *old(rr) % n,
        r < n,
        *final(rr) == if *old(rr) == usize::MAX {
            0
        } else {
            *old(rr) + 1
        },
{
    let first = *rr % n;
    *rr = if *rr == usize::MAX {
        0
    } else {
        *rr + 1
    };
    first
}

/// Tells what comes next for a client that `tried` upstreams were offered. All are offered
/// it in turn; if none takes it, the first one has to.
pub fn dispatch_step(first: usize, tried: usize, delivered: bool, n: usize) -> (r: DispatchStep)
    requires
        first < n,
    ensures
        r == if delivered {
            DispatchStep::Done
        } else if tried < n {
            DispatchStep::Offer(upstream_at(first as int, tried as int, n as int) as usize)
        } else {
            DispatchStep::Insist(first)
        },
        r matches DispatchStep::Offer(u) ==> u < n,
{
    if delivered {
        return DispatchStep::Done;
    }
    if tried >= n {
        return DispatchStep::Insist(first);
    }
    let left = n - first;
    if tried < left {
        assert(upstream_at(first as int, tried as int, n as int) == first + tried)
            by (nonlinear_arith)
            requires
                0 <= first + tried < n,
                upstream_at(first as int, tried as int, n as int) == (first + tried) % (n as int),
        ;
        DispatchStep::Offer(first + tried)
    } else {
        assert((first + tried) % (n as int) == first + tried - n) by (nonlinear_arith)
            requires
                n <= first + tried < 2 * n,
        ;
        DispatchStep::Offer(tried - left)
    }
}

/// In turn every upstream is offered a client, and none twice.
pub proof fn law_every_upstream_is_offered(first: int, n: int, u: int)
    requires
        0 <= first < n,
        0 <= u < n,
    ensures
        exists|offset: int|
            0 <= offset < n && #[trigger] upstream_at(first, offset, n) == u && forall|other: int|
                0 <= other < n && #[trigger] upstream_at(first, other, n) == u ==> other == offset,
{
    let offset = if u >= first {
        u - first
    } else {
        u - first + n
    };
    assert forall|o: int| 0 <= o < n implies #[trigger] upstream_at(first, o, n) == if first + o
        < n {
        first + o
    } else {
        first + o - n
    } by {
        if first + o < n {
            assert((first + o) % n == first + o) by (nonlinear_arith)
                requires
                    0 <= first + o < n,
            ;
        } else {
            assert((first + o) % n == first + o - n) by (nonlinear_arith)
                requires
                    n <= first + o < 2 * n,
            ;
        }
    }
    assert(upstream_at(first, offset, n) == u);
}

/// Clients that follow each other are first offered to upstreams that follow each other.
pub proof fn law_turns(rr: int, n: int)
    requires
        0 <= rr,
        n > 0,
    ensures
        (rr + 1) % n == upstream_at(rr % n, 1, n),
{
    vstd::arithmetic::div_mod::lemma_add_mod_noop(rr, 1, n);
    vstd::arithmetic::div_mod::lemma_mod_twice(rr, n);
    vstd::arithmetic::div_mod::lemma_add_mod_noop(rr % n, 1, n);
}

/// How an accept went.
#[derive(Clone, Copy, Debug, PartialEq, Eq, Structural)]
pub enum AcceptOutcome {
    /// A client came.
    Accepted(i32),
    /// The call was interrupted.
    Interrupted,
    /// No client is there yet.
    WouldBlock,
    /// The accept failed.
    Failed,
}

/// What comes after an accept.
#[derive(Clone, Copy, Debug, PartialEq, Eq, Structural)]
pub enum AcceptStep {
    /// Hand the client over.
    Dispatch(i32),
    /// Accept again.
    Retry,
    /// The batch is over.
    EndBatch,
    /// Give up.
    Fail,
}

/// A batch of accepts.
pub struct AcceptBatch {
    accepted: usize,
    limit: usize,
}

impl AcceptBatch {
    /// How many clients came.
    pub closed spec fn count(&self) -> nat {
        self.accepted as nat
    }

    /// How many clients a batch takes.
    pub closed spec fn bound(&self) -> nat {
        self.limit as nat
    }

    pub fn new(limit: usize) -> (r: Self)
        ensures
            r.count() == 0,
            r.bound() == limit,
    {
        AcceptBatch { accepted: 0, limit }
    }

    /// Whether the batch takes another client.
    pub fn wants_more(&self) -> (r: bool)
        ensures
            r == (self.count() < self.bound()),
    {
        self.accepted < self.limit
    }

    /// Whether no client came, so that one is to be waited for.
    pub fn is_idle(&self) -> (r: bool)
        ensures
            r == (self.count() == 0),
    {
        self.accepted == 0
    }

    /// Takes note of an accept.
    pub fn on_accept(&mut self, outcome: AcceptOutcome) -> (r: AcceptStep)
        requires
            old(self).count() < old(self).bound(),
        ensures
            final(self).bound() == old(self).bound(),
            final(self).count() == old(self).count() + if outcome is Accepted {
                1int
            } else {
                0int
            },
            r == match outcome {
                AcceptOutcome::Accepted(fd) => AcceptStep::Dispatch(fd),
                AcceptOutcome::Interrupted => AcceptStep::Retry,
                AcceptOutcome::WouldBlock => AcceptStep::EndBatch,
                AcceptOutcome::Failed => AcceptStep::Fail,
            },
    {
        match outcome {
            AcceptOutcome::Accepted(fd) => {
                self.accepted = self.accepted + 1;
                AcceptStep::Dispatch(fd)
            },
            AcceptOutcome::Interrupted => AcceptStep::Retry,
            AcceptOutcome::WouldBlock => AcceptStep::EndBatch,
            AcceptOutcome::Failed => AcceptStep::Fail,
        }
    }
}

/// Whether to try again to connect after `failed` attempts failed.
pub fn tries_again(failed: usize) -> (r: bool)
    ensures
        r == (failed < CONNECT_ATTEMPTS),
        r == (failed < 200),
{
    failed < CONNECT_ATTEMPTS
}

/// The first comma from `p` on, or the end.
pub open spec fn comma_from(s: Seq<u8>, p: int) -> int
    decreases s.len() - p,
{
    if p >= s.len() || s[p] == 0x2c {
        p
    } else {
        comma_from(s, p + 1)
    }
}

/// The pieces between commas from `p` on, without the empty ones.
pub open spec fn pieces(s: Seq<u8>, p: int) -> Seq<Seq<u8>>
    decreases s.len() - p,
    when 0 <= p <= s.len()
    via pieces_shrink
{
    let end = comma_from(s, p);
    let first = if end > p {
        seq![s.subrange(p, end)]
    } else {
        Seq::empty()
    };
    if end < s.len() {
        first + pieces(s, end + 1)
    } else {
        first
    }
}

#[via_fn]
proof fn pieces_shrink(s: Seq<u8>, p: int) {
    lemma_comma(s, p);
}

pub proof fn lemma_comma(s: Seq<u8>, p: int)
    requires
        0 <= p <= s.len(),
    ensures
        p <= comma_from(s, p) <= s.len(),
        forall|i: int| p <= i < comma_from(s, p) ==> s[i] != 0x2c,
        comma_from(s, p) < s.len() ==> s[comma_from(s, p)] == 0x2c,
    decreases s.len() - p,
{
    if p < s.len() && s[p] != 0x2c {
        lemma_comma(s, p + 1);
    }
}

/// The paths of the upstreams: what stands between commas, without the empty pieces.
pub fn upstream_paths(list: &[u8]) -> (r: Vec<Vec<u8>>)
    ensures
        r.len() == pieces(list@, 0).len(),
        forall|i: int| 0 <= i < r.len() ==> (#[trigger] r@[i])@ == pieces(list@, 0)[i],
{
    let mut paths: Vec<Vec<u8>> = Vec::new();
    let ghost mut found: Seq<Seq<u8>> = Seq::empty();
    let mut start: usize = 0;
    let mut more: bool = true;
    assert(found + pieces(list@, 0) =~= pieces(list@, 0));
    while more
        invariant
            start <= list.len(),
            paths.len() == found.len(),
            forall|i: int| 0 <= i < paths.len() ==> (#[trigger] paths@[i])@ == found[i],
            more ==> found + pieces(list@, start as int) == pieces(list@, 0),
            !more ==> found == pieces(list@, 0),
        decreases
            list.len() - start + if more {
                1int
            } else {
                0int
            },
    {
        let mut end: usize = start;
        while end < list.len() && list[end] != 0x2c
            invariant
                start <= end <= list.len(),
                comma_from(list@, end as int) == comma_from(list@, start as int),
            decreases list.len() - end,
        {
            end += 1;
        }
        let ghost rest = pieces(list@, start as int);
        let ghost before = found;
        if end > start {
            let piece = vstd::slice::slice_to_vec(vstd::slice::slice_subrange(list, start, end));
            proof {
                found = found.push(piece@);
            }
            paths.push(piece);
        }
        if end < list.len() {
            proof {
                assert(before + rest =~= found + pieces(list@, end + 1));
            }
            start = end + 1;
        } else {
            proof {
                assert(before + rest =~= found);
            }
            more = false;
        }
    }
    paths
}

/// No path is empty, and none holds a comma.
pub proof fn law_paths_are_plain(s: Seq<u8>, p: int)
    requires
        0 <= p <= s.len(),
    ensures
        forall|i: int, j: int|
            0 <= i < pieces(s, p).len() && 0 <= j < pieces(s, p)[i].len() ==> #[trigger] pieces(
                s,
                p,
            )[i][j] != 0x2c,
        forall|i: int| 0 <= i < pieces(s, p).len() ==> (#[trigger] pieces(s, p)[i]).len() > 0,
    decreases s.len() - p,
{
    lemma_comma(s, p);
    let end = comma_from(s, p);
    if end < s.len() {
        law_paths_are_plain(s, end + 1);
        let first: int = if end > p {
            1
        } else {
            0
        };
        assert forall|i: int| first <= i < pieces(s, p).len() implies #[trigger] pieces(s, p)[i]
            == pieces(s, end + 1)[i - first] by {}
    }
}

/// The first upstream is offered a client first, and each of the following ones then; after
/// the last comes the one with the number zero.
pub proof fn law_offers_follow_each_other(first: int, offset: int, n: int)
    requires
        0 <= first < n,
        0 <= offset < n,
    ensures
        upstream_at(first, 0, n) == first,
        0 <= upstream_at(first, offset, n) < n,
        upstream_at(first, offset + 1, n) == if upstream_at(first, offset, n) + 1 == n {
            0
        } else {
            upstream_at(first, offset, n) + 1
        },
{
    assert(first % n == first) by (nonlinear_arith)
        requires
            0 <= first < n,
    ;
    let u = first + offset;
    if u < n {
        assert(u % n == u) by (nonlinear_arith)
            requires
                0 <= u < n,
        ;
    } else {
        assert(u % n == u - n) by (nonlinear_arith)
            requires
                n <= u < 2 * n,
        ;
    }
    if u + 1 < n {
        assert((u + 1) % n == u + 1) by (nonlinear_arith)
            requires
                0 <= u + 1 < n,
        ;
    } else if u + 1 < 2 * n {
        assert((u + 1) % n == u + 1 - n) by (nonlinear_arith)
            requires
                n <= u + 1 < 2 * n,
        ;
    }
}

/// A list without a comma is one path, or none where it is empty. A comma ends a path: what
/// stands before the first one comes first, unless nothing does, and the paths of the rest
/// follow.
pub proof fn law_commas_part_paths(path: Seq<u8>, rest: Seq<u8>)
    requires
        forall|i: int| 0 <= i < path.len() ==> #[trigger] path[i] != 0x2c,
    ensures
        pieces(path, 0) == if path.len() > 0 {
            seq![path]
        } else {
            Seq::empty()
        },
        pieces(path + seq![0x2cu8] + rest, 0) == pieces(path, 0) + pieces(rest, 0),
{
    lemma_comma(path, 0);
    assert(comma_from(path, 0) == path.len());
    assert(path.subrange(0, path.len() as int) =~= path);
    let list = path + seq![0x2cu8] + rest;
    lemma_comma(list, 0);
    let end = comma_from(list, 0);
    assert(list[path.len() as int] == 0x2c);
    if end < path.len() {
        assert(list[end] == path[end]);
    }
    assert(end == path.len());
    assert(list.subrange(0, end) =~= path);
    assert(list.skip(end + 1) =~= rest);
    lemma_pieces_shift(list, end + 1, 0);
    assert(pieces(list, 0) =~= pieces(path, 0) + pieces(rest, 0));
}

proof fn lemma_comma_shift(s: Seq<u8>, by: int, p: int)
    requires
        0 <= by,
        0 <= p,
        by + p <= s.len(),
    ensures
        comma_from(s, by + p) == by + comma_from(s.skip(by), p),
    decreases s.len() - by - p,
{
    if by + p < s.len() {
        assert(s.skip(by)[p] == s[by + p]);
        if s[by + p] != 0x2c {
            lemma_comma_shift(s, by, p + 1);
        }
    }
}

proof fn lemma_pieces_shift(s: Seq<u8>, by: int, p: int)
    requires
        0 <= by,
        0 <= p,
        by + p <= s.len(),
    ensures
        pieces(s, by + p) == pieces(s.skip(by), p),
    decreases s.len() - by - p,
{
    let t = s.skip(by);
    lemma_comma_shift(s, by, p);
    lemma_comma(t, p);
    let end = comma_from(t, p);
    assert(s.subrange(by + p, by + end) =~= t.subrange(p, end));
    if end < t.len() {
        lemma_pieces_shift(s, by, end + 1);
    }
}

} // verus!
