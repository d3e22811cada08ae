//! The writing half of a connection, and the list of connections that want to
//! be told when the archive changes.
//!
//! A frame and the payload it declares are one item of the queue, written with
//! nothing able to come between them. Without that a broadcast could land in
//! the middle of a blob a picker was reading, and the client would have no way
//! to tell the two apart: the payload is opaque bytes and the frame is whatever
//! follows them.

use crate::proto;
use vstd::prelude::*;

verus! {

/// What follows a frame.
#[derive(Debug)]
pub enum Payload {
    /// That many bytes of a stored blob, copied straight from its file, so
    /// serving a large entry costs a fixed-size buffer however large it is.
    Stored { digest: String, bytes: u64 },
    /// Bytes already in memory.
    Held(Vec<u8>),
}

/// The same as the contracts speak of it.
pub enum PayloadView {
    Stored { digest: Seq<char>, bytes: nat },
    Held(Seq<u8>),
}

impl View for Payload {
    type V = PayloadView;

    open spec fn view(&self) -> PayloadView {
        match *self {
            Payload::Stored { digest, bytes } => PayloadView::Stored {
                digest: digest@,
                bytes: bytes as nat,
            },
            Payload::Held(bytes) => PayloadView::Held(bytes@),
        }
    }
}

impl PayloadView {
    /// How many bytes follow the frame.
    pub open spec fn len(self) -> nat {
        match self {
            PayloadView::Stored { bytes, .. } => bytes,
            PayloadView::Held(bytes) => bytes.len(),
        }
    }
}

/// How many bytes of payload a frame says follow it.
pub open spec fn declared(response: proto::ResponseView) -> nat {
    match response {
        proto::ResponseView::Blob { bytes, .. } => bytes,
        proto::ResponseView::Thumb { bytes, .. } => bytes,
        _ => 0,
    }
}

/// One thing to write: a frame, and the payload that follows it.
#[derive(Debug)]
pub struct Outgoing {
    pub frame: Vec<u8>,
    pub payload: Option<Payload>,
}

/// The same as the contracts speak of it.
pub struct OutgoingView {
    pub frame: Seq<u8>,
    pub payload: Option<PayloadView>,
}

impl View for Outgoing {
    type V = OutgoingView;

    open spec fn view(&self) -> OutgoingView {
        OutgoingView {
            frame: self.frame@,
            payload: match self.payload {
                Some(payload) => Some(payload@),
                None => None,
            },
        }
    }
}

/// A response on its way, with nothing after it.
pub open spec fn plain(response: proto::ResponseView) -> OutgoingView {
    OutgoingView { frame: proto::frame(response), payload: None }
}

/// A response on its way, with the payload it declares.
pub open spec fn with_payload(response: proto::ResponseView, payload: PayloadView) -> OutgoingView {
    OutgoingView { frame: proto::frame(response), payload: Some(payload) }
}

/// Some things to write as the contracts speak of them.
pub open spec fn outgoing_views(items: Seq<Outgoing>) -> Seq<OutgoingView> {
    Seq::new(items.len(), |i: int| items[i]@)
}

/// What a connection is to be sent, in order.
pub struct Outbox {
    queue: Vec<Outgoing>,
}

impl View for Outbox {
    type V = Seq<OutgoingView>;

    closed spec fn view(&self) -> Seq<OutgoingView> {
        outgoing_views(self.queue@)
    }
}

impl Outbox {
    pub fn new() -> (out: Outbox)
        ensures
            out@ == Seq::<OutgoingView>::empty(),
    {
        let out = Outbox { queue: Vec::new() };
        assert(out@ =~= Seq::<OutgoingView>::empty());
        out
    }

    /// Queues one frame.
    pub fn send(&mut self, response: &proto::Response)
        requires
            declared(response@) == 0,
        ensures
            final(self)@ == old(self)@.push(plain(response@)),
    {
        let mut frame: Vec<u8> = Vec::new();
        response.encode(&mut frame);
        self.queue.push(Outgoing { frame, payload: None });
        assert(self@ =~= old(self)@.push(plain(response@)));
    }

    /// Queues one frame and the payload it declared, with nothing able to come
    /// between them.
    pub fn send_blob(&mut self, response: &proto::Response, payload: Payload)
        requires
            declared(response@) == payload@.len(),
        ensures
            final(self)@ == old(self)@.push(with_payload(response@, payload@)),
    {
        let ghost content = payload@;
        let mut frame: Vec<u8> = Vec::new();
        response.encode(&mut frame);
        self.queue.push(Outgoing { frame, payload: Some(payload) });
        assert(self@ =~= old(self)@.push(with_payload(response@, content)));
    }

    /// Everything queued, in order; the queue is empty after.
    pub fn take(&mut self) -> (items: Vec<Outgoing>)
        ensures
            outgoing_views(items@) == old(self)@,
            final(self)@ == Seq::<OutgoingView>::empty(),
    {
        let mut items: Vec<Outgoing> = Vec::new();
        items.append(&mut self.queue);
        assert(outgoing_views(items@) =~= old(self)@);
        assert(self@ =~= Seq::<OutgoingView>::empty());
        items
    }
}

/// The connections that asked to be told when the archive changes.
///
/// A client that went away needs no goodbye: the registry notices when it can
/// no longer be reached.
pub struct Watchers {
    connections: Vec<u64>,
}

/// The connections that were reached.
pub open spec fn reached_of(connections: Seq<u64>, reached: Seq<bool>) -> Seq<u64>
    decreases connections.len(),
{
    if connections.len() == 0 {
        Seq::empty()
    } else {
        let earlier = reached_of(connections.drop_last(), reached);
        if connections.len() <= reached.len() && reached[connections.len() - 1] {
            earlier.push(connections.last())
        } else {
            earlier
        }
    }
}

impl View for Watchers {
    type V = Seq<u64>;

    closed spec fn view(&self) -> Seq<u64> {
        self.connections@
    }
}

impl Default for Watchers {
    fn default() -> (watchers: Watchers)
        ensures
            watchers@ == Seq::<u64>::empty(),
    {
        Watchers { connections: Vec::new() }
    }
}

impl Watchers {
    /// Takes a connection in.
    pub fn add(&mut self, connection: u64)
        ensures
            final(self)@ == old(self)@.push(connection),
    {
        self.connections.push(connection);
    }

    /// Whom to tell, and what to write to each of them.
    pub fn broadcast(&self, event: &proto::Response) -> (message: (Vec<u64>, Vec<u8>))
        ensures
            message.0@ == self@,
            message.1@ == proto::frame(event@),
    {
        let mut frame: Vec<u8> = Vec::new();
        event.encode(&mut frame);
        let mut all: Vec<u64> = Vec::new();
        all.extend_from_slice(self.connections.as_slice());
        assert(all@ =~= self@);
        (all, frame)
    }

    /// Drops the connections that could not be told, `reached` saying for each
    /// in turn whether it was.
    ///
    /// A write that fails is a client that has gone or stopped reading; it is
    /// dropped from the list rather than retried, because the archive must not
    /// wait on anybody to keep recording.
    pub fn retain(&mut self, reached: &[bool])
        ensures
            final(self)@ == reached_of(old(self)@, reached@),
    {
        let ghost all = self@;
        let mut kept: Vec<u64> = Vec::new();
        let mut i: usize = 0;
        assert(reached_of(all.take(0), reached@) =~= Seq::empty());
        while i < self.connections.len()
            invariant
                i <= self.connections.len(),
                all == self.connections@,
                kept@ == reached_of(all.take(i as int), reached@),
            decreases self.connections.len() - i,
        {
            assert(all.take(i as int + 1).drop_last() =~= all.take(i as int));
            if i < reached.len() && reached[i] {
                kept.push(self.connections[i]);
            }
            i += 1;
        }
        assert(all.take(all.len() as int) =~= all);
        self.connections = kept;
    }

    /// How many connections are listening.
    pub fn count(&self) -> (count: usize)
        ensures
            count == self@.len(),
    {
        self.connections.len()
    }
}

/// A broadcast leaves on the list exactly the connections it reached.
pub proof fn only_the_reached_stay(connections: Seq<u64>, reached: Seq<bool>)
    requires
        reached.len() == connections.len(),
    ensures
        (forall|i: int| 0 <= i < reached.len() ==> #[trigger] reached[i]) ==> reached_of(
            connections,
            reached,
        ) == connections,
        (forall|i: int| 0 <= i < reached.len() ==> !#[trigger] reached[i]) ==> reached_of(
            connections,
            reached,
        ) == Seq::<u64>::empty(),
        forall|connection: u64| #[trigger]
            reached_of(connections, reached).contains(connection) <==> exists|i: int|
                0 <= i < connections.len() && #[trigger] connections[i] == connection && reached[i],
{
    the_reached(connections, reached);
}

proof fn the_reached(connections: Seq<u64>, reached: Seq<bool>)
    requires
        connections.len() <= reached.len(),
    ensures
        (forall|i: int| 0 <= i < connections.len() ==> #[trigger] reached[i]) ==> reached_of(
            connections,
            reached,
        ) == connections,
        (forall|i: int| 0 <= i < connections.len() ==> !#[trigger] reached[i]) ==> reached_of(
            connections,
            reached,
        ) == Seq::<u64>::empty(),
        forall|connection: u64| #[trigger]
            reached_of(connections, reached).contains(connection) <==> exists|i: int|
                0 <= i < connections.len() && #[trigger] connections[i] == connection && reached[i],
    decreases connections.len(),
{
    if connections.len() > 0 {
        let front = connections.drop_last();
        let last = connections.len() - 1;
        the_reached(front, reached);
        let earlier = reached_of(front, reached);
        let all = reached_of(connections, reached);
        assert(front.push(connections.last()) =~= connections);
        assert forall|connection: u64| #[trigger] all.contains(connection) <==> exists|i: int|
            0 <= i < connections.len() && #[trigger] connections[i] == connection
                && reached[i] by {
            if all.contains(connection) {
                let k = choose|k: int| 0 <= k < all.len() && all[k] == connection;
                if k < earlier.len() {
                    assert(earlier[k] == connection);
                    assert(earlier.contains(connection));
                    let i = choose|i: int|
                        0 <= i < front.len() && #[trigger] front[i] == connection && reached[i];
                    assert(connections[i] == connection);
                } else {
                    assert(connections[last] == connection);
                }
            }
            if exists|i: int|
                0 <= i < connections.len() && #[trigger] connections[i] == connection && reached[i] {
                let i = choose|i: int|
                    0 <= i < connections.len() && #[trigger] connections[i] == connection
                        && reached[i];
                if i < last {
                    assert(front[i] == connection);
                    assert(earlier.contains(connection));
                    let k = choose|k: int| 0 <= k < earlier.len() && earlier[k] == connection;
                    assert(all[k] == connection);
                } else {
                    assert(all[earlier.len() as int] == connection);
                }
            }
        }
    } else {
        assert(reached_of(connections, reached) =~= connections);
    }
}

/// Only a blob and a thumbnail are followed by a payload, of the length their
/// frame states; what is sent is the frame, and the payload with it.
pub proof fn a_frame_declares_its_payload(response: proto::ResponseView, payload: PayloadView)
    ensures
        response matches proto::ResponseView::Blob { bytes, .. } ==> declared(response) == bytes,
        response matches proto::ResponseView::Thumb { bytes, .. } ==> declared(response) == bytes,
        !(response is Blob) && !(response is Thumb) ==> declared(response) == 0,
        plain(response).frame == proto::frame(response),
        plain(response).payload is None,
        with_payload(response, payload).frame == proto::frame(response),
        with_payload(response, payload).payload == Some(payload),
        payload matches PayloadView::Held(content) ==> payload.len() == content.len(),
        payload matches PayloadView::Stored { bytes, .. } ==> payload.len() == bytes,
{
}

/// Each connection is kept or dropped by what became of its own message, and
/// those that are kept stay in order.
pub proof fn each_connection_is_judged_by_its_own_message(
    connections: Seq<u64>,
    next: u64,
    reached: Seq<bool>,
)
    requires
        reached.len() == connections.len() + 1,
    ensures
        reached_of(Seq::empty(), reached) == Seq::<u64>::empty(),
        reached.last() ==> reached_of(connections.push(next), reached) == reached_of(
            connections,
            reached,
        ).push(next),
        !reached.last() ==> reached_of(connections.push(next), reached) == reached_of(
            connections,
            reached,
        ),
{
    assert(connections.push(next).drop_last() =~= connections);
}

} // verus!
