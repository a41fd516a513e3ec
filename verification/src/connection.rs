//! The state of a client's connection, and what its events lead to.
//!
//! The event loop reads, scores and writes; how that went it tells the connection, which
//! says what comes next. A connection ends when its response is sent, when the peer closes
//! it or hangs up, and when a request does not fit.
use crate::http::{
    classify_request, find_header_end, find_header_end_from, parse_content_length_fast, Request,
    ResponseKind, BAD_REQUEST_RESPONSE, MAX_HTTP_BYTES,
};
use vstd::prelude::*;
use vstd::slice::slice_subrange;
use vstd::string::StringSliceAdditionalSpecFns;

verus! {

use crate::http::{body_length, ends_head, errand, head_end, is_complete};

/// What is known of a connection.
#[verifier::ext_equal]
pub struct Connection {
    pub fd: i32,
    pub received: Seq<u8>,
    pub response: Seq<u8>,
    pub written: nat,
    pub response_ready: bool,
    pub write_done: bool,
    pub writable: bool,
    pub close_requested: bool,
}

/// What happened on a connection.
pub enum Occurrence {
    Woken { hangup: bool, readable: bool, writable: bool },
    Data(Seq<u8>),
    PeerClosed,
    NothingToRead,
    ReadFailed,
    Answered(Seq<u8>),
    Armed,
    Written(nat),
    CannotWrite,
    WriteFailed,
}

/// What happened on a connection.
pub enum Event<'a> {
    /// The event loop reports the connection.
    Woken { hangup: bool, readable: bool, writable: bool },
    /// These bytes were read.
    Data(&'a [u8]),
    /// The peer has closed.
    PeerClosed,
    /// There is nothing to read yet.
    NothingToRead,
    /// The read failed.
    ReadFailed,
    /// This is the response to the request.
    Answered(ResponseKind),
    /// The event loop waits for what was asked.
    Armed,
    /// So many bytes were written.
    Written(usize),
    /// Nothing can be written yet.
    CannotWrite,
    /// The write failed.
    WriteFailed,
}

impl<'a> View for Event<'a> {
    type V = Occurrence;

    open spec fn view(&self) -> Occurrence {
        match *self {
            Event::Woken { hangup, readable, writable } => Occurrence::Woken {
                hangup,
                readable,
                writable,
            },
            Event::Data(bytes) => Occurrence::Data(bytes@),
            Event::PeerClosed => Occurrence::PeerClosed,
            Event::NothingToRead => Occurrence::NothingToRead,
            Event::ReadFailed => Occurrence::ReadFailed,
            Event::Answered(kind) => Occurrence::Answered(kind.content()),
            Event::Armed => Occurrence::Armed,
            Event::Written(n) => Occurrence::Written(n as nat),
            Event::CannotWrite => Occurrence::CannotWrite,
            Event::WriteFailed => Occurrence::WriteFailed,
        }
    }
}

/// What is to be done on a connection.
#[derive(Clone, Copy, Debug, PartialEq, Eq, Structural)]
pub enum Action {
    /// Read, as much as there is room for.
    Read,
    /// Find the response to the request.
    Answer,
    /// Wait until there is something to read.
    ArmRead,
    /// Wait until something can be written.
    ArmWrite,
    /// Write what is pending.
    Write,
    /// Close the connection.
    Close,
    /// Nothing, until the event loop reports the connection again.
    Wait,
    /// Give up.
    Fail,
}

impl Connection {
    /// Whether `e` can happen: what is read fits, and no more is written than is pending.
    pub open spec fn admits(self, e: Occurrence) -> bool {
        match e {
            Occurrence::Data(bytes) => 0 < bytes.len() <= MAX_HTTP_BYTES - self.received.len(),
            Occurrence::Written(n) => n <= self.response.len() - self.written,
            _ => true,
        }
    }

    /// The end of what a report leads to.
    pub open spec fn settled(self) -> (Connection, Action) {
        if self.close_requested {
            (self, Action::Close)
        } else {
            (self, Action::Wait)
        }
    }

    /// Writing goes on while something is pending; what is sent is closed.
    pub open spec fn flushed(self) -> (Connection, Action) {
        if self.written < self.response.len() {
            (self, Action::Write)
        } else {
            (Connection { write_done: true, close_requested: true, ..self }, Action::Close)
        }
    }

    /// A report that something can be written counts once the response is there.
    pub open spec fn resumed(self) -> (Connection, Action) {
        let now = Connection { writable: false, ..self };
        if self.writable && self.response_ready {
            now.flushed()
        } else {
            now.settled()
        }
    }

    /// When nothing more is to be read for now, a complete request is answered, and one
    /// that fills the buffer without being complete does not fit.
    pub open spec fn looked_at(self) -> (Connection, Action) {
        if is_complete(self.received) {
            (self, Action::Answer)
        } else if self.received.len() == MAX_HTTP_BYTES {
            (Connection { close_requested: true, ..self }, Action::Close)
        } else {
            (self, Action::ArmRead)
        }
    }

    /// What an occurrence leads to.
    pub open spec fn after(self, e: Occurrence) -> (Connection, Action) {
        match e {
            Occurrence::Woken { hangup, readable, writable } => {
                let now = Connection {
                    writable: writable && !hangup,
                    close_requested: self.close_requested || hangup,
                    ..self
                };
                if !hangup && readable && !self.response_ready {
                    (now, Action::Read)
                } else {
                    now.resumed()
                }
            },
            Occurrence::Data(bytes) => {
                let now = Connection { received: self.received + bytes, ..self };
                if now.received.len() < MAX_HTTP_BYTES {
                    (now, Action::Read)
                } else {
                    now.looked_at()
                }
            },
            Occurrence::PeerClosed => (Connection { close_requested: true, ..self }).looked_at(),
            Occurrence::NothingToRead => self.looked_at(),
            Occurrence::ReadFailed => (self, Action::Fail),
            Occurrence::Answered(response) => (
                Connection { response, written: 0, response_ready: true, ..self },
                Action::ArmWrite,
            ),
            Occurrence::Armed => self.resumed(),
            Occurrence::Written(n) => (Connection {
                written: self.written + n,
                ..self
            }).flushed(),
            Occurrence::CannotWrite => (self, Action::ArmWrite),
            Occurrence::WriteFailed => (self, Action::Fail),
        }
    }

    /// What several occurrences lead to, when `action` was to be done before them.
    pub open spec fn after_all(self, action: Action, events: Seq<Occurrence>) -> (
        Connection,
        Action,
    )
        decreases events.len(),
    {
        if events.len() == 0 {
            (self, action)
        } else {
            let (now, next) = self.after(events[0]);
            now.after_all(next, events.drop_first())
        }
    }
}

/// A connection on which nothing has happened; unless another response is given it is
/// refused.
pub open spec fn fresh(fd: i32) -> Connection {
    Connection {
        fd,
        received: Seq::empty(),
        response: BAD_REQUEST_RESPONSE.spec_bytes(),
        written: 0,
        response_ready: false,
        write_done: false,
        writable: false,
        close_requested: false,
    }
}

/// A client's connection.
pub struct ClientState {
    fd: i32,
    buf: Vec<u8>,
    header_end: Option<usize>,
    header_search_pos: usize,
    content_length: usize,
    response_kind: ResponseKind,
    write_pos: usize,
    response_ready: bool,
    write_done: bool,
    writable: bool,
    close_requested: bool,
}

impl View for ClientState {
    type V = Connection;

    closed spec fn view(&self) -> Connection {
        Connection {
            fd: self.fd,
            received: self.buf@,
            response: self.response_kind.content(),
            written: self.write_pos as nat,
            response_ready: self.response_ready,
            write_done: self.write_done,
            writable: self.writable,
            close_requested: self.close_requested,
        }
    }
}

impl ClientState {
    /// What has been found out about the head is true of what has arrived, and what has
    /// been written is part of the response.
    pub closed spec fn wf(&self) -> bool {
        &&& self.buf@.len() <= MAX_HTTP_BYTES
        &&& self.write_pos <= self.response_kind.content().len()
        &&& match self.header_end {
            Some(h) => {
                &&& head_end(self.buf@, 0) == Some(h as int)
                &&& self.content_length == body_length(self.buf@.take(h as int))
            },
            None => {
                &&& self.header_search_pos == 0 || self.header_search_pos + 3 <= self.buf@.len()
                &&& forall|j: int|
                    0 <= j < self.header_search_pos ==> !#[trigger] ends_head(self.buf@, j)
            },
        }
    }

    /// A connection on which nothing has happened; unless another response is prepared it
    /// is refused.
    pub fn new(fd: i32) -> (r: Self)
        ensures
            r.wf(),
            r@ == fresh(fd),
    {
        ClientState {
            fd,
            buf: Vec::new(),
            header_end: None,
            header_search_pos: 0,
            content_length: 0,
            response_kind: ResponseKind::Static(BAD_REQUEST_RESPONSE.as_bytes()),
            write_pos: 0,
            response_ready: false,
            write_done: false,
            writable: false,
            close_requested: false,
        }
    }

    /// The descriptor.
    pub fn fd(&self) -> (r: i32)
        ensures
            r == self@.fd,
    {
        self.fd
    }

    /// How many bytes still fit.
    pub fn room(&self) -> (r: usize)
        requires
            self.wf(),
        ensures
            r == MAX_HTTP_BYTES - self@.received.len(),
    {
        MAX_HTTP_BYTES - self.buf.len()
    }

    /// Takes what was read.
    fn append(&mut self, bytes: &[u8])
        requires
            old(self).wf(),
            bytes@.len() <= MAX_HTTP_BYTES - old(self)@.received.len(),
        ensures
            final(self).wf(),
            final(self)@ == (Connection {
                received: old(self)@.received + bytes@,
                ..old(self)@
            }),
    {
        let ghost before = self.buf@;
        let mut buf: Vec<u8> = Vec::new();
        std::mem::swap(&mut buf, &mut self.buf);
        let mut i: usize = 0;
        assert(before + bytes@.take(0) =~= before);
        while i < bytes.len()
            invariant
                i <= bytes.len(),
                buf@ == before + bytes@.take(i as int),
            decreases bytes.len() - i,
        {
            buf.push(bytes[i]);
            assert(before + bytes@.take(i + 1) =~= (before + bytes@.take(i as int)).push(
                bytes@[i as int],
            ));
            i += 1;
        }
        assert(bytes@.take(i as int) =~= bytes@);
        self.buf = buf;
        proof {
            let now = before + bytes@;
            crate::http::law_head_end_stays(before, bytes@);
            crate::http::lemma_head_end(before, 0);
            match self.header_end {
                Some(h) => {
                    assert(now.take(h as int) =~= before.take(h as int));
                },
                None => {
                    assert forall|j: int|
                        0 <= j < self.header_search_pos implies !#[trigger] ends_head(now, j) by {
                        assert(!ends_head(before, j));
                    }
                },
            }
        }
    }

    /// Whether the head has ended and the body that it declares has arrived. Bytes that
    /// were looked through for the end of the head are not looked through again.
    pub fn try_finalize_request(&mut self) -> (r: bool)
        requires
            old(self).wf(),
        ensures
            final(self).wf(),
            final(self)@ == old(self)@,
            r == is_complete(old(self)@.received),
    {
        proof {
            crate::http::lemma_head_end(self.buf@, 0);
        }
        if self.header_end.is_none() {
            proof {
                crate::http::lemma_head_end_skip(self.buf@, self.header_search_pos as int);
            }
            match find_header_end_from(self.buf.as_slice(), self.header_search_pos) {
                Some(pos) => {
                    let head = slice_subrange(self.buf.as_slice(), 0, pos);
                    assert(head@ =~= self.buf@.take(pos as int));
                    self.content_length =
                    match parse_content_length_fast(head) {
                        Some(n) => n,
                        None => 0,
                    };
                    self.header_end = Some(pos);
                },
                None => {
                    self.header_search_pos = self.buf.len().saturating_sub(3);
                },
            }
        }
        match self.header_end {
            Some(pos) => self.buf.len() - pos - 4 >= self.content_length,
            None => false,
        }
    }

    /// Looks at what has arrived.
    fn look(&mut self) -> (r: Action)
        requires
            old(self).wf(),
        ensures
            final(self).wf(),
            (final(self)@, r) == old(self)@.looked_at(),
    {
        if self.try_finalize_request() {
            return Action::Answer;
        }
        if self.buf.len() == MAX_HTTP_BYTES {
            self.close_requested = true;
            return Action::Close;
        }
        Action::ArmRead
    }

    /// What the request asks for.
    pub fn request(&self) -> (r: Request<'_>)
        requires
            self.wf(),
        ensures
            r.is(errand(self@.received, head_end(self@.received, 0))),
    {
        let data = self.buf.as_slice();
        proof {
            crate::http::lemma_head_end(self.buf@, 0);
        }
        let end = match self.header_end {
            Some(h) => Some(h),
            None => find_header_end(data),
        };
        classify_request(data, end)
    }

    /// What of the response is still to be written.
    pub fn pending(&self) -> (r: &[u8])
        requires
            self.wf(),
        ensures
            r@ == self@.response.skip(self@.written as int),
    {
        let bytes = self.response_kind.bytes();
        assert(self.write_pos <= bytes.len());
        let rest = slice_subrange(bytes, self.write_pos, bytes.len());
        assert(rest@ =~= self@.response.skip(self@.written as int));
        rest
    }

    /// Ends what a report leads to.
    fn settle(&self) -> (r: Action)
        ensures
            (self@, r) == self@.settled(),
    {
        if self.close_requested {
            Action::Close
        } else {
            Action::Wait
        }
    }

    /// Goes on writing.
    fn flush(&mut self) -> (r: Action)
        requires
            old(self).wf(),
        ensures
            final(self).wf(),
            (final(self)@, r) == old(self)@.flushed(),
    {
        if self.write_pos < self.response_kind.bytes().len() {
            return Action::Write;
        }
        self.write_done = true;
        self.close_requested = true;
        Action::Close
    }

    /// Goes on with a report.
    fn resume(&mut self) -> (r: Action)
        requires
            old(self).wf(),
        ensures
            final(self).wf(),
            (final(self)@, r) == old(self)@.resumed(),
    {
        let writes = self.writable && self.response_ready;
        self.writable = false;
        if writes {
            self.flush()
        } else {
            self.settle()
        }
    }

    /// Takes note of what happened and tells what is to be done.
    pub fn step(&mut self, event: Event<'_>) -> (r: Action)
        requires
            old(self).wf(),
            old(self)@.admits(event@),
        ensures
            final(self).wf(),
            (final(self)@, r) == old(self)@.after(event@),
    {
        match event {
            Event::Woken { hangup, readable, writable } => {
                self.writable = writable && !hangup;
                if hangup {
                    self.close_requested = true;
                }
                if !hangup && readable && !self.response_ready {
                    Action::Read
                } else {
                    self.resume()
                }
            },
            Event::Data(bytes) => {
                self.append(bytes);
                if self.buf.len() < MAX_HTTP_BYTES {
                    Action::Read
                } else {
                    self.look()
                }
            },
            Event::PeerClosed => {
                self.close_requested = true;
                self.look()
            },
            Event::NothingToRead => self.look(),
            Event::ReadFailed => Action::Fail,
            Event::Answered(kind) => {
                self.response_kind = kind;
                self.write_pos = 0;
                self.response_ready = true;
                Action::ArmWrite
            },
            Event::Armed => self.resume(),
            Event::Written(n) => {
                let total = self.response_kind.bytes().len();
                assert(self.write_pos + n <= total);
                self.write_pos = self.write_pos + n;
                self.flush()
            },
            Event::CannotWrite => Action::ArmWrite,
            Event::WriteFailed => Action::Fail,
        }
    }
}

/// Pieces one after the other.
pub open spec fn joined(pieces: Seq<Seq<u8>>) -> Seq<u8>
    decreases pieces.len(),
{
    if pieces.len() == 0 {
        Seq::empty()
    } else {
        pieces[0] + joined(pieces.drop_first())
    }
}

/// That the pieces are read where `room` bytes fit, and then, unless nothing more fits,
/// nothing more is there.
pub open spec fn reads(pieces: Seq<Seq<u8>>, room: int) -> Seq<Occurrence>
    decreases pieces.len(),
{
    if pieces.len() > 0 {
        seq![Occurrence::Data(pieces[0])] + reads(pieces.drop_first(), room - pieces[0].len())
    } else if room > 0 {
        seq![Occurrence::NothingToRead]
    } else {
        Seq::empty()
    }
}

/// That so many bytes are written, time after time.
pub open spec fn writes(counts: Seq<nat>) -> Seq<Occurrence> {
    Seq::new(counts.len(), |i: int| Occurrence::Written(counts[i]))
}

/// The sum of numbers.
pub open spec fn total(counts: Seq<nat>) -> nat
    decreases counts.len(),
{
    if counts.len() == 0 {
        0
    } else {
        counts[0] + total(counts.drop_first())
    }
}

/// In whatever pieces a request is read, what comes of it depends on its bytes alone.
pub proof fn law_pieces_are_put_together(c: Connection, pieces: Seq<Seq<u8>>)
    requires
        forall|i: int| 0 <= i < pieces.len() ==> (#[trigger] pieces[i]).len() > 0,
        c.received.len() < MAX_HTTP_BYTES,
        c.received.len() + joined(pieces).len() <= MAX_HTTP_BYTES,
    ensures
        c.after_all(Action::Read, reads(pieces, MAX_HTTP_BYTES - c.received.len())) == (
        Connection { received: c.received + joined(pieces), ..c }).looked_at(),
    decreases pieces.len(),
{
    let room = MAX_HTTP_BYTES - c.received.len();
    let events = reads(pieces, room);
    let (now, next) = c.after(events[0]);
    if pieces.len() == 0 {
        assert(c.received + joined(pieces) =~= c.received);
        assert(events.drop_first() =~= Seq::empty());
        assert(now.after_all(next, events.drop_first()) == (now, next));
    } else {
        let rest = pieces.drop_first();
        assert(events.drop_first() =~= reads(rest, room - pieces[0].len()));
        assert forall|i: int| 0 <= i < rest.len() implies (#[trigger] rest[i]).len() > 0 by {
            assert(rest[i] == pieces[i + 1]);
        }
        let all = c.received + joined(pieces);
        assert(c.received + pieces[0] + joined(rest) =~= all);
        if c.received.len() + pieces[0].len() < MAX_HTTP_BYTES {
            law_pieces_are_put_together(now, rest);
        } else {
            assert(rest.len() == 0) by {
                if rest.len() > 0 {
                    assert(joined(rest).len() >= rest[0].len());
                }
            }
            assert(joined(rest) =~= Seq::empty());
            assert(c.received + pieces[0] =~= all);
            assert(now.after_all(next, events.drop_first()) == (now, next));
        }
    }
}

/// In whatever pieces a response is written, the connection is closed when, and not before,
/// all of it is sent.
pub proof fn law_responses_are_sent_whole(c: Connection, counts: Seq<nat>)
    requires
        counts.len() > 0,
        forall|i: int| 0 <= i < counts.len() ==> #[trigger] counts[i] > 0,
        c.written + total(counts) <= c.response.len(),
    ensures
        c.after_all(Action::Write, writes(counts)) == (Connection {
            written: c.written + total(counts),
            ..c
        }).flushed(),
        c.after_all(Action::Write, writes(counts)).1 == Action::Close <==> c.written + total(counts)
            == c.response.len(),
    decreases counts.len(),
{
    let events = writes(counts);
    let rest = counts.drop_first();
    let (now, next) = c.after(events[0]);
    assert(events.drop_first() =~= writes(rest));
    if rest.len() == 0 {
        assert(total(rest) == 0);
        assert(now.after_all(next, events.drop_first()) == (now, next));
    } else {
        assert forall|i: int| 0 <= i < rest.len() implies #[trigger] rest[i] > 0 by {
            assert(rest[i] == counts[i + 1]);
        }
        assert(total(rest) >= rest[0]);
        law_responses_are_sent_whole(now, rest);
    }
}

/// A connection is answered only when its request is complete, and is closed only when the
/// peer hung up or closed, its request does not fit, or its response is sent.
pub proof fn law_reasons(c: Connection, e: Occurrence)
    ensures
        c.after(e).1 == Action::Answer ==> is_complete(c.after(e).0.received),
        c.after(e).1 == Action::Close ==> c.after(e).0.close_requested,
        c.after(e).0.close_requested && !c.close_requested ==> {
            ||| e matches Occurrence::Woken { hangup, .. } && hangup
            ||| e is PeerClosed
            ||| c.after(e).0.received.len() == MAX_HTTP_BYTES && !is_complete(
                c.after(e).0.received,
            )
            ||| c.after(e).0.write_done && c.after(e).0.written >= c.after(e).0.response.len()
        },
{
}

/// What has been received never shrinks, nor does what has been sent of a response, and a
/// response that is there stays until another is given.
pub proof fn law_nothing_is_lost(c: Connection, e: Occurrence)
    requires
        c.admits(e),
    ensures
        c.received.len() <= c.after(e).0.received.len(),
        c.after(e).0.received.take(c.received.len() as int) == c.received,
        e !is Answered ==> c.written <= c.after(e).0.written,
        c.response_ready ==> c.after(e).0.response_ready,
        e !is Answered ==> c.after(e).0.response == c.response,
        c.close_requested ==> c.after(e).0.close_requested,
{
    assert(c.after(e).0.received.take(c.received.len() as int) =~= c.received);
}

proof fn lemma_after_both(
    c: Connection,
    action: Action,
    a: Seq<Occurrence>,
    b: Seq<Occurrence>,
)
    ensures
        c.after_all(action, a + b) == c.after_all(action, a).0.after_all(
            c.after_all(action, a).1,
            b,
        ),
    decreases a.len(),
{
    if a.len() == 0 {
        assert(a + b =~= b);
    } else {
        let (now, next) = c.after(a[0]);
        lemma_after_both(now, next, a.drop_first(), b);
        assert((a + b).drop_first() =~= a.drop_first() + b);
    }
}

/// The course of an exchange: the request is read in pieces, answered with `answer`, and
/// the answer is written in pieces.
pub open spec fn exchange(
    pieces: Seq<Seq<u8>>,
    answer: Seq<u8>,
    counts: Seq<nat>,
) -> Seq<Occurrence> {
    seq![Occurrence::Woken { hangup: false, readable: true, writable: false }] + reads(
        pieces,
        MAX_HTTP_BYTES as int,
    ) + seq![
        Occurrence::Answered(answer),
        Occurrence::Armed,
        Occurrence::Woken { hangup: false, readable: false, writable: true },
    ] + writes(counts)
}

/// A request that fits is read in whatever pieces it comes, asked to be answered when it is
/// complete, and its connection closed when all of the answer is sent, in whatever pieces
/// it goes.
pub proof fn law_exchange(fd: i32, pieces: Seq<Seq<u8>>, answer: Seq<u8>, counts: Seq<nat>)
    requires
        forall|i: int| 0 <= i < pieces.len() ==> (#[trigger] pieces[i]).len() > 0,
        joined(pieces).len() <= MAX_HTTP_BYTES,
        is_complete(joined(pieces)),
        counts.len() > 0,
        forall|i: int| 0 <= i < counts.len() ==> #[trigger] counts[i] > 0,
        total(counts) == answer.len(),
    ensures
        fresh(fd).after_all(
            Action::Wait,
            seq![Occurrence::Woken { hangup: false, readable: true, writable: false }] + reads(
                pieces,
                MAX_HTTP_BYTES as int,
            ),
        ).1 == Action::Answer,
        fresh(fd).after_all(Action::Wait, exchange(pieces, answer, counts)) == (
            Connection {
                received: joined(pieces),
                response: answer,
                written: answer.len(),
                response_ready: true,
                write_done: true,
                close_requested: true,
                ..fresh(fd)
            },
            Action::Close,
        ),
{
    let start = fresh(fd);
    let woken = seq![Occurrence::Woken { hangup: false, readable: true, writable: false }];
    let between = seq![
        Occurrence::Answered(answer),
        Occurrence::Armed,
        Occurrence::Woken { hangup: false, readable: false, writable: true },
    ];
    let reading = reads(pieces, MAX_HTTP_BYTES as int);
    let read = Connection { received: joined(pieces), ..start };
    let answered = Connection { response: answer, response_ready: true, ..read };
    lemma_after_both(start, Action::Wait, woken + reading + between, writes(counts));
    lemma_after_both(start, Action::Wait, woken + reading, between);
    lemma_after_both(start, Action::Wait, woken, reading);
    assert(woken.drop_first() =~= Seq::empty());
    assert(start.after_all(Action::Wait, woken) == (start, Action::Read)) by {
        assert(start.after(woken[0]) == (start, Action::Read));
        assert(start.after_all(Action::Read, woken.drop_first()) == (start, Action::Read));
    }
    law_pieces_are_put_together(start, pieces);
    assert(start.received + joined(pieces) =~= joined(pieces));
    assert(start.after_all(Action::Wait, woken + reading) == (read, Action::Answer));
    assert(total(counts) >= counts[0]);
    assert(read.after_all(Action::Answer, between) == (answered, Action::Write)) by {
        reveal_with_fuel(Connection::after_all, 4);
        let last = between.drop_first().drop_first();
        assert(between.drop_first()[0] == Occurrence::Armed);
        assert(last[0] == between[2]);
        assert(last.drop_first() =~= Seq::empty());
    }
    law_responses_are_sent_whole(answered, counts);
}

/// When nothing more is to be read for now, a complete request is answered, one that is not
/// complete is waited for as long as there is room, and one that fills all 16384 bytes
/// without being complete ends the connection. That the peer has closed changes nothing of
/// that, but the connection is closed in the end.
pub proof fn law_what_is_read_is_looked_at(c: Connection)
    ensures
        is_complete(c.received) ==> c.after(Occurrence::NothingToRead) == (c, Action::Answer),
        !is_complete(c.received) && c.received.len() < 16384 ==> c.after(Occurrence::NothingToRead)
            == (c, Action::ArmRead),
        !is_complete(c.received) && c.received.len() == 16384 ==> {
            &&& c.after(Occurrence::NothingToRead).1 == Action::Close
            &&& c.after(Occurrence::NothingToRead).0.close_requested
        },
        c.after(Occurrence::PeerClosed).1 == c.after(Occurrence::NothingToRead).1,
        c.after(Occurrence::PeerClosed).0 == (Connection { close_requested: true, ..c }),
{
}

/// Bytes that were read are put behind those that are there, and more is read as long as
/// there is room.
pub proof fn law_bytes_are_taken(c: Connection, bytes: Seq<u8>)
    requires
        c.received.len() + bytes.len() <= 16384,
    ensures
        c.after(Occurrence::Data(bytes)).0.received == c.received + bytes,
        c.received.len() + bytes.len() < 16384 ==> c.after(Occurrence::Data(bytes)) == (
            Connection { received: c.received + bytes, ..c },
            Action::Read,
        ),
        c.received.len() + bytes.len() == 16384 ==> c.after(Occurrence::Data(bytes)) == (
        Connection { received: c.received + bytes, ..c }).after(Occurrence::NothingToRead),
{
}

/// A hangup ends a connection, whatever else is reported with it.
pub proof fn law_hangups_end_connections(c: Connection, readable: bool, writable: bool)
    ensures
        c.after(Occurrence::Woken { hangup: true, readable, writable }).1 == Action::Close,
        c.after(Occurrence::Woken { hangup: true, readable, writable }).0.close_requested,
{
}

/// A connection that is reported readable is read until its response is there, and one that
/// is reported writable is written to from then on; else it is left alone.
pub proof fn law_reports_are_followed(c: Connection, readable: bool, writable: bool)
    requires
        !c.close_requested,
    ensures
        ({
            let next = c.after(Occurrence::Woken { hangup: false, readable, writable }).1;
            &&& readable && !c.response_ready ==> next == Action::Read
            &&& c.response_ready && writable && c.written < c.response.len() ==> next
                == Action::Write
            &&& c.response_ready && writable && c.written >= c.response.len() ==> next
                == Action::Close
            &&& c.response_ready && !writable ==> next == Action::Wait
            &&& !readable && !c.response_ready ==> next == Action::Wait
        }),
{
}

/// A response that is given is sent from its beginning, once the connection can be written
/// to; what was written is not sent again, and what cannot be written yet is waited for. A
/// failure to read or write is reported.
pub proof fn law_responses_are_taken(c: Connection, response: Seq<u8>, n: nat)
    ensures
        c.after(Occurrence::Answered(response)) == (
            Connection { response, written: 0, response_ready: true, ..c },
            Action::ArmWrite,
        ),
        c.after(Occurrence::Written(n)).0.written == c.written + n,
        c.after(Occurrence::Written(n)).0.response == c.response,
        c.after(Occurrence::Written(n)).1 == if c.written + n < c.response.len() {
            Action::Write
        } else {
            Action::Close
        },
        c.after(Occurrence::CannotWrite) == (c, Action::ArmWrite),
        c.after(Occurrence::ReadFailed) == (c, Action::Fail),
        c.after(Occurrence::WriteFailed) == (c, Action::Fail),
{
}

} // verus!
