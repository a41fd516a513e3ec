//! The clients of the server, and what the events of its loop lead to.
use crate::connection::ClientState;
use vstd::prelude::*;

verus! {

use crate::connection::fresh;

/// Whom an event concerns.
#[derive(Clone, Copy, Debug, PartialEq, Eq, Structural)]
pub enum Target {
    /// The listener for the balancer's connections.
    Listener,
    /// A connection of the balancer.
    Upstream,
    /// A client, by its slot.
    Client(usize),
    /// Nobody that is known.
    Nobody,
}

/// What a connection of the balancer brought.
#[derive(Clone, Copy, Debug, PartialEq, Eq, Structural)]
pub enum FdMessage {
    /// The descriptor of a client.
    Received(i32),
    /// The balancer has closed.
    Closed,
    /// Nothing is there yet.
    WouldBlock,
    /// The receive failed, or the message carried no descriptor.
    Broken,
}

/// What to do about it.
#[derive(Clone, Copy, Debug, PartialEq, Eq, Structural)]
pub enum DrainStep {
    /// Take the client and receive again.
    Register(i32),
    /// Close the connection of the balancer.
    CloseUpstream,
    /// Stop for now.
    Stop,
}

/// Tells what a receive brought: how many bytes, whether it failed for want of data, and
/// the descriptor that came with them.
pub fn received_message(received: isize, would_block: bool, rights: Option<i32>) -> (r: FdMessage)
    ensures
        r == if received == 0 {
            FdMessage::Closed
        } else if received < 0 {
            if would_block {
                FdMessage::WouldBlock
            } else {
                FdMessage::Broken
            }
        } else {
            match rights {
                Some(fd) => FdMessage::Received(fd),
                None => FdMessage::Broken,
            }
        },
{
    if received == 0 {
        return FdMessage::Closed;
    }
    if received < 0 {
        return if would_block {
            FdMessage::WouldBlock
        } else {
            FdMessage::Broken
        };
    }
    match rights {
        Some(fd) => FdMessage::Received(fd),
        None => FdMessage::Broken,
    }
}

/// Tells what to do about a message of the balancer.
pub fn drain_step(message: FdMessage) -> (r: DrainStep)
    ensures
        r == match message {
            FdMessage::Received(fd) => DrainStep::Register(fd),
            FdMessage::WouldBlock => DrainStep::Stop,
            FdMessage::Closed => DrainStep::CloseUpstream,
            FdMessage::Broken => DrainStep::CloseUpstream,
        },
{
    match message {
        FdMessage::Received(fd) => DrainStep::Register(fd),
        FdMessage::WouldBlock => DrainStep::Stop,
        FdMessage::Closed => DrainStep::CloseUpstream,
        FdMessage::Broken => DrainStep::CloseUpstream,
    }
}

/// Whether slot `i` holds a client.
pub open spec fn is_client(clients: Seq<Option<ClientState>>, i: int) -> bool {
    0 <= i < clients.len() && clients[i] is Some
}

/// Tells whom an event on descriptor `fd` concerns; the listener comes first, then the
/// connections of the balancer, then the clients.
pub fn event_target(
    fd: i32,
    listener: i32,
    is_upstream: bool,
    clients: &Vec<Option<ClientState>>,
) -> (r: Target)
    ensures
        r == if fd == listener {
            Target::Listener
        } else if is_upstream {
            Target::Upstream
        } else if is_client(clients@, fd as int) {
            Target::Client(fd as usize)
        } else {
            Target::Nobody
        },
{
    if fd == listener {
        return Target::Listener;
    }
    if is_upstream {
        return Target::Upstream;
    }
    if fd >= 0 && (fd as usize) < clients.len() && clients[fd as usize].is_some() {
        return Target::Client(fd as usize);
    }
    Target::Nobody
}

/// Gives a client its slot, which is that of its descriptor.
pub fn register_client(clients: &mut Vec<Option<ClientState>>, fd: i32)
    requires
        0 <= fd,
    ensures
        final(clients).len() == if old(clients).len() <= fd {
            fd + 1
        } else {
            old(clients).len() as int
        },
        final(clients)@[fd as int] matches Some(client) && client.wf() && client@ == fresh(
            fd,
        ),
        forall|i: int|
            0 <= i < final(clients).len() && i != fd ==> #[trigger] final(clients)@[i] == if i
                < old(clients).len() {
                old(clients)@[i]
            } else {
                None
            },
{
    let idx = fd as usize;
    while clients.len() <= idx
        invariant
            idx == fd,
            0 <= fd,
            clients.len() >= old(clients).len(),
            clients.len() <= idx + 1 || clients.len() == old(clients).len(),
            forall|i: int| 0 <= i < old(clients).len() ==> clients@[i] == old(clients)@[i],
            forall|i: int| old(clients).len() <= i < clients.len() ==> clients@[i] is None,
        decreases idx + 1 - clients.len(),
    {
        clients.push(None);
    }
    clients.set(idx, Some(ClientState::new(fd)));
}

/// Empties the slot of a client.
pub fn drop_client(clients: &mut Vec<Option<ClientState>>, slot: usize)
    ensures
        final(clients)@ == if slot < old(clients).len() {
            old(clients)@.update(slot as int, None)
        } else {
            old(clients)@
        },
{
    if slot < clients.len() {
        clients.set(slot, None);
    }
}

} // verus!
