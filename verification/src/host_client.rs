//! The host client: sequence numbers, requests in flight, publishing,
//! subscribing, and the inbound pump's decision for each frame.
//!
//! Nothing here waits. A request is issued, which registers its wait and
//! yields the frame to send; the caller hands the frame to the transport and
//! reports how that went; from then on the request is polled until a reply or
//! an error reply has arrived or the registry has closed. Whoever drives this
//! from tasks keeps the `WireContext` behind a lock and sleeps between polls.
//!
//! Closure is final and it is everybody's. The registry is closed when the
//! inbound stream ends and when the outbound queue turns out to be closed;
//! from then on every request, every publish and every subscribe fails, and
//! a registration that still arrives is dropped.

use crate::registry::Fired;
use crate::registry::Polled;
use crate::registry::RegistryView;
use crate::registry::SlotView;
use crate::registry::Wait;
use crate::registry::WaitError;
use crate::registry::WaitRegistry;
use crate::registry::WakeOutcome;
use crate::subscription::depth_of;
use crate::subscription::Delivery;
use crate::subscription::SubInfo;
use crate::subscription::Subscription;
use crate::subscription::SubscriptionTable;
use crate::wire::Key;
use crate::wire::RpcFrame;
use crate::wire::WireHeader;
use vstd::prelude::*;
use vstd::std_specs::convert::FromSpecImpl;

verus! {

/// `postcard::Error`, the codec's error. It is carried, never looked into.
#[verifier::external_type_specification]
#[verifier::external_body]
pub struct ExPostcardError(postcard::Error);

/// Host Error Kind
#[derive(Debug, PartialEq)]
pub enum HostErr<WireErr> {
    /// An error of the user-specified wire error type
    Wire(WireErr),
    /// We got a response that didn't match the expected value or the
    /// user specified wire error type
    BadResponse,
    /// Deserialization of the message failed
    Postcard(postcard::Error),
    /// The interface has been closed, and no further messages are possible
    Closed,
}

impl<T> From<postcard::Error> for HostErr<T> {
    fn from(value: postcard::Error) -> (err: Self) {
        Self::Postcard(value)
    }
}

impl<T> FromSpecImpl<postcard::Error> for HostErr<T> {
    open spec fn obeys_from_spec() -> bool {
        true
    }

    open spec fn from_spec(value: postcard::Error) -> Self {
        HostErr::Postcard(value)
    }
}

impl<T> From<WaitError> for HostErr<T> {
    fn from(value: WaitError) -> (err: Self) {
        Self::Closed
    }
}

impl<T> FromSpecImpl<WaitError> for HostErr<T> {
    open spec fn obeys_from_spec() -> bool {
        true
    }

    open spec fn from_spec(value: WaitError) -> Self {
        HostErr::Closed
    }
}

/// The I/O worker has closed.
#[derive(Clone, Copy, Debug, PartialEq, Eq, Structural)]
pub struct IoClosed;

/// Error for [HostContext::process].
#[derive(Clone, Copy, Debug, PartialEq, Eq, Structural)]
pub enum ProcessError {
    /// The registry has been closed: no further requests
    /// will be made and no responses will be processed.
    Closed,
}

/// What the transport's outbound queue did with something handed to it. A
/// closed queue means that the transport has ended, as the end of the
/// inbound stream does.
#[derive(Clone, Copy, Debug, PartialEq, Eq, Structural)]
pub enum Handoff {
    /// The queue took it.
    Accepted,
    /// The queue is closed.
    Closed,
}

/// Shared context between [HostClient] and the I/O worker task
pub struct HostContext {
    map: WaitRegistry,
    seq: u32,
}

impl HostContext {
    /// The wait registry, as contracts see it.
    pub closed spec fn registry(&self) -> RegistryView {
        self.map@
    }

    /// The sequence number that the next request will carry.
    pub closed spec fn next_seq(&self) -> u32 {
        self.seq
    }

    /// The registry is open and a pending wait listens on `header`.
    pub open spec fn expects_reply(&self, header: WireHeader) -> bool {
        !self.registry().closed && self.registry().has_listener(header)
    }

    /// A context with an empty, open registry, counting from zero.
    pub fn new() -> (ctx: HostContext)
        ensures
            ctx.registry() == RegistryView::empty(),
            ctx.registry().wf(),
            ctx.next_seq() == 0,
    {
        HostContext { map: WaitRegistry::new(), seq: 0 }
    }

    /// Whether the registry has been closed.
    pub fn is_closed(&self) -> (b: bool)
        ensures
            b == self.registry().closed,
    {
        self.map.is_closed()
    }

    /// Whether no wait is registered.
    pub fn is_idle(&self) -> (b: bool)
        ensures
            b == self.registry().is_empty(),
    {
        self.map.is_empty()
    }

    /// Whether a wait is pending on `header`.
    pub fn expects(&self, header: &WireHeader) -> (b: bool)
        ensures
            b == self.registry().has_listener(*header),
    {
        self.map.has_pending(header)
    }

    /// Like `HostContext::process` but tells you if we processed the message or
    /// nobody wanted it
    pub fn process_did_wake(&mut self, frame: RpcFrame) -> (r: Result<bool, ProcessError>)
        ensures
            final(self).registry() == old(self).registry().wake(frame.header, frame.body@),
            final(self).next_seq() == old(self).next_seq(),
            old(self).registry().wf() ==> final(self).registry().wf(),
            r == if old(self).registry().closed {
                Err::<bool, ProcessError>(ProcessError::Closed)
            } else {
                Ok::<bool, ProcessError>(old(self).registry().has_listener(frame.header))
            },
    {
        match self.map.wake(&frame.header, frame.body) {
            WakeOutcome::Woke => Ok(true),
            WakeOutcome::NoMatch(_) => Ok(false),
            WakeOutcome::Closed(_) => Err(ProcessError::Closed),
        }
    }

    /// Process the message, returns Ok if the message was taken or dropped.
    ///
    /// Returns an Err if the map was closed.
    pub fn process(&mut self, frame: RpcFrame) -> (r: Result<(), ProcessError>)
        ensures
            final(self).registry() == old(self).registry().wake(frame.header, frame.body@),
            final(self).next_seq() == old(self).next_seq(),
            old(self).registry().wf() ==> final(self).registry().wf(),
            r == if old(self).registry().closed {
                Err::<(), ProcessError>(ProcessError::Closed)
            } else {
                Ok::<(), ProcessError>(())
            },
    {
        if let WakeOutcome::Closed(_) = self.map.wake(&frame.header, frame.body) {
            Err(ProcessError::Closed)
        } else {
            Ok(())
        }
    }

    /// Closes the registry: every request in flight resolves to `Closed`, and
    /// so does every later one.
    pub fn close(&mut self)
        ensures
            final(self).registry() == old(self).registry().close(),
            final(self).next_seq() == old(self).next_seq(),
            old(self).registry().wf() ==> final(self).registry().wf(),
    {
        self.map.close();
    }

    /// Books what the outbound queue did with a frame or a registration for
    /// which no reply is expected. The operation has succeeded when the queue
    /// took it and the registry is still open. A closed queue fails it with
    /// `IoClosed` and closes the registry, since the transport has ended; on
    /// a registry that has been closed in the meantime it fails likewise.
    pub fn handoff(&mut self, handoff: Handoff) -> (r: Result<(), IoClosed>)
        ensures
            final(self).next_seq() == old(self).next_seq(),
            old(self).registry().wf() ==> final(self).registry().wf(),
            final(self).registry() == if handoff == Handoff::Closed {
                old(self).registry().close()
            } else {
                old(self).registry()
            },
            r == if handoff == Handoff::Accepted && !old(self).registry().closed {
                Ok::<(), IoClosed>(())
            } else {
                Err::<(), IoClosed>(IoClosed)
            },
    {
        match handoff {
            Handoff::Accepted => {
                if self.map.is_closed() {
                    Err(IoClosed)
                } else {
                    Ok(())
                }
            },
            Handoff::Closed => {
                self.map.close();
                Err(IoClosed)
            },
        }
    }
}

/// A request that has been issued and has not come to an end.
///
/// It starts out issued. Once the transport has taken its frame it awaits
/// its reply. It ends in one of four ways: delivered, when the reply arrives;
/// wire-errored, when the peer's error arrives; cancelled, when it is given
/// up; closed, when the registry closes or the outbound queue is closed.
/// Every end consumes the value and vacates its slot.
#[derive(Debug)]
pub struct Request {
    wait: Wait,
    awaiting: bool,
}

/// What polling a request found.
#[derive(Debug)]
pub enum RequestPoll {
    /// Neither a reply nor an error reply has arrived; the request comes back.
    Pending(Request),
    /// The reply arrived; this is its payload.
    Delivered(Vec<u8>),
    /// The peer answered with an error; this is its payload.
    WireErrored(Vec<u8>),
    /// The registry was closed, or the request's wait was taken over.
    Closed,
}

impl Request {
    /// The slot of the request's wait, if it has one.
    pub closed spec fn handle(&self) -> Option<int> {
        self.wait@
    }

    /// Whether the request's frame has been handed to the transport.
    pub closed spec fn awaiting_reply(&self) -> bool {
        self.awaiting
    }

    /// Books what the outbound queue did with the request's frame. Once the
    /// queue has taken it the request awaits its reply. A closed queue means
    /// that the transport has ended: the request is over with `Closed`, its
    /// slot is vacated, and the registry is closed, so that every other
    /// request in flight and every later one resolves to `Closed` too.
    pub fn on_send<W>(self, ctx: &mut HostContext, handoff: Handoff) -> (r: Result<
        Request,
        HostErr<W>,
    >)
        ensures
            final(ctx).next_seq() == old(ctx).next_seq(),
            old(ctx).registry().wf() ==> final(ctx).registry().wf(),
            match handoff {
                Handoff::Accepted => final(ctx).registry() == old(ctx).registry() && (
                r matches Ok(request) && request.handle() == self.handle()
                    && request.awaiting_reply()),
                Handoff::Closed => final(ctx).registry() == old(ctx).registry().release(
                    self.handle(),
                ).close() && r == Err::<Request, HostErr<W>>(HostErr::Closed),
            },
    {
        match handoff {
            Handoff::Accepted => Ok(Request { wait: self.wait, awaiting: true }),
            Handoff::Closed => {
                ctx.map.cancel(self.wait);
                ctx.map.close();
                Err(HostErr::Closed)
            },
        }
    }

    /// Looks whether the request has come to an end.
    ///
    /// While its slot is pending the request comes back unchanged. A slot
    /// woken on the reply header gives `Delivered` with the payload, one woken
    /// on the error header gives `WireErrored` with the payload, and a slot
    /// that was closed gives `Closed`. In each of these three cases the slot
    /// is vacant afterwards.
    pub fn poll(self, ctx: &mut HostContext) -> (polled: RequestPoll)
        ensures
            final(ctx).registry() == old(ctx).registry().poll(self.handle()),
            final(ctx).next_seq() == old(ctx).next_seq(),
            old(ctx).registry().wf() ==> final(ctx).registry().wf(),
            match old(ctx).registry().state_of(self.handle()) {
                SlotView::Pending { .. } => polled matches RequestPoll::Pending(back)
                    && back.handle() == self.handle() && back.awaiting_reply()
                    == self.awaiting_reply(),
                SlotView::Ready { fired: Fired::Primary, payload } => polled matches RequestPoll::Delivered(
                    bytes,
                ) && bytes@ == payload,
                SlotView::Ready { fired: Fired::Alternate, payload } => polled matches RequestPoll::WireErrored(
                    bytes,
                ) && bytes@ == payload,
                _ => polled is Closed,
            },
    {
        let awaiting = self.awaiting;
        match ctx.map.poll(self.wait) {
            Polled::Pending(wait) => RequestPoll::Pending(Request { wait, awaiting }),
            Polled::Ready(Ok(delivered)) => match delivered.fired {
                Fired::Primary => RequestPoll::Delivered(delivered.payload),
                Fired::Alternate => RequestPoll::WireErrored(delivered.payload),
            },
            Polled::Ready(Err(_)) => RequestPoll::Closed,
        }
    }

    /// Gives the request up: its slot becomes vacant, whatever had arrived
    /// there is dropped, and a reply that comes later finds no match.
    pub fn cancel(self, ctx: &mut HostContext)
        ensures
            final(ctx).registry() == old(ctx).registry().release(self.handle()),
            final(ctx).next_seq() == old(ctx).next_seq(),
            old(ctx).registry().wf() ==> final(ctx).registry().wf(),
    {
        ctx.map.cancel(self.wait);
    }
}

/// The result of a request whose reply arrived, given how its payload
/// decoded: the value, or the codec's error.
pub fn delivered<R, W>(decoded: Result<R, postcard::Error>) -> (r: Result<R, HostErr<W>>)
    ensures
        r == match decoded {
            Ok(value) => Ok::<R, HostErr<W>>(value),
            Err(e) => Err::<R, HostErr<W>>(HostErr::Postcard(e)),
        },
{
    match decoded {
        Ok(value) => Ok(value),
        Err(e) => Err(HostErr::Postcard(e)),
    }
}

/// The result of a request that the peer answered with an error, given how
/// the error's payload decoded: always an error, the peer's or the codec's.
pub fn wire_errored<R, W>(decoded: Result<W, postcard::Error>) -> (r: Result<R, HostErr<W>>)
    ensures
        r == match decoded {
            Ok(wire) => Err::<R, HostErr<W>>(HostErr::Wire(wire)),
            Err(e) => Err::<R, HostErr<W>>(HostErr::Postcard(e)),
        },
{
    match decoded {
        Ok(wire) => Err(HostErr::Wire(wire)),
        Err(e) => Err(HostErr::Postcard(e)),
    }
}

/// The result of a schema-driven request whose reply arrived, given how its
/// payload read against the schema: the value, or `BadResponse` where the
/// payload does not fit.
pub fn delivered_dyn<V, E, W>(decoded: Result<V, E>) -> (r: Result<V, HostErr<W>>)
    ensures
        r == match decoded {
            Ok(value) => Ok::<V, HostErr<W>>(value),
            Err(_) => Err::<V, HostErr<W>>(HostErr::BadResponse),
        },
{
    match decoded {
        Ok(value) => Ok(value),
        Err(_) => Err(HostErr::BadResponse),
    }
}

/// The [HostClient] is the primary PC-side interface.
///
/// It is a small value that can be copied freely: everything that requests
/// share lives in the [HostContext].
#[derive(Clone, Copy, Debug)]
pub struct HostClient {
    err_key: Key,
}

/// Items necessary for implementing a custom I/O Task
pub struct WireContext {
    /// This shared information contains the registry used for replying to
    /// open requests.
    pub incoming: HostContext,
    /// The subscriptions that the I/O task has been told of.
    pub subs: SubscriptionTable,
}

/// What the inbound pump did with a frame.
#[derive(Clone, Copy, Debug, PartialEq, Eq, Structural)]
pub enum Dispatch {
    /// A pending request took it.
    Reply,
    /// It went to the subscription of its key, with this result.
    Topic(Delivery),
    /// Nobody wanted it.
    Discarded,
}

impl HostClient {
    /// The key under which the peer sends error replies.
    pub closed spec fn error_key(&self) -> Key {
        self.err_key
    }

    /// Create a new manually implemented [HostClient].
    ///
    /// The client comes with the wire context that the I/O task works on: an
    /// open registry without waits, sequence numbers from zero, and no
    /// subscriptions.
    pub fn new_manual(err_key: Key) -> (pair: (HostClient, WireContext))
        ensures
            pair.0.error_key() == err_key,
            pair.1.incoming.registry() == RegistryView::empty(),
            pair.1.incoming.next_seq() == 0,
            pair.1.subs.held() == Seq::<SubInfo>::empty(),
            pair.1.subs@ == Map::<Key, tokio::sync::mpsc::Sender<RpcFrame>>::empty(),
            pair.1.subs.wf(),
    {
        let me = HostClient { err_key };
        let wire = WireContext { incoming: HostContext::new(), subs: SubscriptionTable::new() };
        (me, wire)
    }

    /// The key under which the peer sends error replies.
    pub fn err_key(&self) -> (key: Key)
        ensures
            key == self.error_key(),
    {
        self.err_key
    }

    /// Issues a request for which a reply under `resp_key` is expected.
    ///
    /// On an open registry the request takes the context's next sequence
    /// number, which then advances by one, wrapping at the end of its range.
    /// One wait is registered on the reply header and on the error header,
    /// both with that number, so of a reply and an error the first to arrive
    /// decides. The frame to send carries `req_key`, the same number, and
    /// `body` unchanged. Once the registry is closed the transport has ended:
    /// the call fails with `Closed`, no frame is made, and the context stays
    /// as it was.
    pub fn send_resp<W>(
        &self,
        ctx: &mut HostContext,
        req_key: Key,
        resp_key: Key,
        body: Vec<u8>,
    ) -> (r: Result<(Request, RpcFrame), HostErr<W>>)
        ensures
            old(ctx).registry().closed ==> {
                &&& r == Err::<(Request, RpcFrame), HostErr<W>>(HostErr::Closed)
                &&& final(ctx).registry() == old(ctx).registry()
                &&& final(ctx).next_seq() == old(ctx).next_seq()
            },
            !old(ctx).registry().closed ==> {
                &&& r matches Ok(issued)
                &&& issued.1.header == (WireHeader { key: req_key, seq_no: old(ctx).next_seq() })
                &&& issued.1.body == body
                &&& final(ctx).next_seq() == old(ctx).next_seq().wrapping_add(1)
                &&& !issued.0.awaiting_reply()
                &&& issued.0.handle() is Some
                &&& old(ctx).registry().vacant(issued.0.handle()->0)
                &&& final(ctx).registry() == old(ctx).registry().wait_at(
                    WireHeader { key: resp_key, seq_no: old(ctx).next_seq() },
                    Some(WireHeader { key: self.error_key(), seq_no: old(ctx).next_seq() }),
                    issued.0.handle()->0,
                )
            },
            old(ctx).registry().wf() ==> final(ctx).registry().wf(),
    {
        if ctx.map.is_closed() {
            return Err(HostErr::Closed);
        }
        let seq_no = ctx.seq;
        ctx.seq = seq_no.wrapping_add(1);
        let wait = ctx.map.wait_either(
            WireHeader { key: resp_key, seq_no },
            Some(WireHeader { key: self.err_key, seq_no }),
        );
        let frame = RpcFrame { header: WireHeader { key: req_key, seq_no }, body };
        Ok((Request { wait, awaiting: false }, frame))
    }

    /// Publish a topic message.
    ///
    /// On an open registry the frame to send carries `key`, the caller's
    /// `seq_no` and `body` unchanged. Nothing is registered: there is no
    /// reply, and the context's own sequence numbers are not touched. Once
    /// the registry is closed the transport has ended, and every publish
    /// fails with `IoClosed` without a frame.
    pub fn publish(&self, ctx: &HostContext, seq_no: u32, key: Key, body: Vec<u8>) -> (r: Result<
        RpcFrame,
        IoClosed,
    >)
        ensures
            ctx.registry().closed ==> r == Err::<RpcFrame, IoClosed>(IoClosed),
            !ctx.registry().closed ==> (r matches Ok(frame) && frame.header == (WireHeader {
                key,
                seq_no,
            }) && frame.body == body),
    {
        if ctx.map.is_closed() {
            return Err(IoClosed);
        }
        Ok(RpcFrame { header: WireHeader { key, seq_no }, body })
    }

    /// Begin listening to a topic.
    ///
    /// On an open registry this makes a channel of `depth` frames and returns
    /// the registration to hand to the I/O task, which carries the sending
    /// end under `key`, and the subscription, which holds the receiving end.
    /// Installing the registration closes an earlier subscription to the same
    /// key: there can be only one. Once the registry is closed the transport
    /// has ended: no channel is made and the call fails with `IoClosed`.
    pub fn subscribe(&self, ctx: &HostContext, key: Key, depth: usize) -> (r: Result<
        (SubInfo, Subscription),
        IoClosed,
    >)
        requires
            0 < depth <= usize::MAX / 8,
        ensures
            ctx.registry().closed ==> r == Err::<(SubInfo, Subscription), IoClosed>(IoClosed),
            !ctx.registry().closed ==> (r matches Ok(ends) && ends.0.key == key && depth_of(
                ends.0.tx,
            ) == depth),
    {
        if ctx.map.is_closed() {
            return Err(IoClosed);
        }
        Ok(SubInfo::channel(key, depth))
    }
}

impl WireContext {
    /// Decides where an inbound frame goes, and takes it there.
    ///
    /// A frame whose header a pending request listens on wakes that request.
    /// Any other frame is offered to the subscription of its key, which
    /// queues it or, when its channel is full, drops it. A frame that neither
    /// wants is discarded. A topic frame leaves every request as it was, and a
    /// reply leaves every subscription as it was.
    pub fn dispatch(&mut self, frame: RpcFrame) -> (d: Dispatch)
        ensures
            final(self).incoming.next_seq() == old(self).incoming.next_seq(),
            old(self).incoming.registry().wf() ==> final(self).incoming.registry().wf(),
            old(self).subs.wf() ==> final(self).subs.wf(),
            final(self).incoming.registry() == old(self).incoming.registry().wake(
                frame.header,
                frame.body@,
            ),
            old(self).incoming.expects_reply(frame.header) ==> {
                &&& d == Dispatch::Reply
                &&& final(self).subs.held() == old(self).subs.held()
            },
            !old(self).incoming.expects_reply(frame.header) ==> {
                &&& final(self).incoming.registry() == old(self).incoming.registry()
                &&& d != Dispatch::Reply
                &&& !old(self).subs@.dom().contains(frame.header.key) ==> d == Dispatch::Discarded
                &&& final(self).subs@ == if d == Dispatch::Discarded {
                    old(self).subs@.remove(frame.header.key)
                } else {
                    old(self).subs@
                }
                &&& d is Topic ==> d->0 != Delivery::NoSubscriber && final(self).subs.held()
                    == old(self).subs.held()
            },
    {
        if !self.incoming.map.is_closed() && self.incoming.map.has_pending(&frame.header) {
            self.incoming.map.wake(&frame.header, frame.body);
            Dispatch::Reply
        } else {
            match self.subs.deliver(frame) {
                Delivery::NoSubscriber => Dispatch::Discarded,
                delivery => Dispatch::Topic(delivery),
            }
        }
    }

    /// Installs a subscription that a client has registered; an earlier one
    /// for the same key is dropped, which closes it. Once the registry is
    /// closed the transport has ended: the registration is dropped instead,
    /// so its subscriber sees the end of its stream, and the table stays
    /// empty.
    pub fn install(&mut self, info: SubInfo)
        ensures
            final(self).subs@ == if old(self).incoming.registry().closed {
                old(self).subs@
            } else {
                old(self).subs@.insert(info.key, info.tx)
            },
            old(self).incoming.registry().closed ==> final(self).subs.held() == old(
                self,
            ).subs.held(),
            old(self).subs.wf() ==> final(self).subs.wf(),
            final(self).incoming == old(self).incoming,
    {
        if !self.incoming.map.is_closed() {
            self.subs.install(info);
        }
    }

    /// The transport has ended: the registry is closed, so every request in
    /// flight resolves to `Closed`, and every subscription's sender is
    /// dropped, so every subscriber sees the end of its stream.
    pub fn close(&mut self)
        ensures
            final(self).subs.held() == Seq::<SubInfo>::empty(),
            final(self).subs@ == Map::<Key, tokio::sync::mpsc::Sender<RpcFrame>>::empty(),
            final(self).subs.wf(),
            final(self).incoming.registry() == old(self).incoming.registry().close(),
            final(self).incoming.next_seq() == old(self).incoming.next_seq(),
            old(self).incoming.registry().wf() ==> final(self).incoming.registry().wf(),
    {
        self.incoming.close();
        self.subs.close();
    }
}

/// Sequence numbers advance by one and wrap: the number after `seq_no` is
/// another number, the next one up, or zero after the largest.
pub proof fn lemma_sequence_advances(seq_no: u32)
    ensures
        seq_no.wrapping_add(1) != seq_no,
        seq_no < u32::MAX ==> seq_no.wrapping_add(1) == seq_no + 1,
        seq_no == u32::MAX ==> seq_no.wrapping_add(1) == 0,
{
}

} // verus!
