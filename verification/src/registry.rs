//! The wait registry: one-shot rendezvous cells indexed by reply coordinate.
//!
//! A waiter registers a slot under a header (and, for a request, under a
//! second header on which the peer may answer with an error). An inbound
//! frame wakes the slot that listens on its header and leaves its payload
//! there; the waiter collects it by polling its handle. A slot ends in
//! exactly one of three ways: its payload is collected, its handle is
//! cancelled, or it is closed, by the registry's closure or by a later waiter
//! on the same header. Whichever happens, the slot is vacant afterwards.
//!
//! The registry is a plain sequential value. Whoever shares it between tasks
//! puts it behind a lock; no operation here waits for anything.

use crate::wire::WireHeader;
use vstd::prelude::*;

verus! {

/// Which of its two coordinates a slot was woken on.
#[derive(Clone, Copy, Debug, PartialEq, Eq, Structural)]
pub enum Fired {
    /// The header given first: the expected reply.
    Primary,
    /// The header given second: the error reply.
    Alternate,
}

/// Why a wait ended without a payload.
#[derive(Clone, Copy, Debug, PartialEq, Eq, Structural)]
pub enum WaitError {
    /// The registry was closed, or the slot was given up to a later waiter on
    /// the same header.
    Closed,
}

/// What `WaitRegistry::wake` did with a payload.
#[derive(Debug, PartialEq, Eq)]
pub enum WakeOutcome {
    /// A pending slot took the payload.
    Woke,
    /// No pending slot listens on the header; the payload comes back.
    NoMatch(Vec<u8>),
    /// The registry is closed; the payload comes back.
    Closed(Vec<u8>),
}

/// A payload together with the coordinate it arrived on.
#[derive(Debug, PartialEq, Eq)]
pub struct Delivered {
    pub fired: Fired,
    pub payload: Vec<u8>,
}

/// The waiter's handle to its slot. It cannot be copied: polling a resolved
/// handle and cancelling both consume it.
#[derive(Debug)]
pub struct Wait {
    slot: Option<usize>,
}

/// What polling a handle found.
#[derive(Debug)]
pub enum Polled {
    /// Nothing has arrived; the handle comes back.
    Pending(Wait),
    /// The wait is over and its slot is vacant again.
    Ready(Result<Delivered, WaitError>),
}

/// The state of one slot, as contracts see it.
pub enum SlotView {
    /// Nobody owns the slot.
    Free,
    /// A waiter listens on `primary` and, where given, on `alternate`.
    Pending { primary: WireHeader, alternate: Option<WireHeader> },
    /// A payload has arrived and waits to be collected.
    Ready { fired: Fired, payload: Seq<u8> },
    /// The wait was closed; the waiter has yet to find out.
    Closed,
}

/// The registry, as contracts see it: whether it is closed, and its slots.
pub struct RegistryView {
    pub closed: bool,
    pub slots: Seq<SlotView>,
}

impl SlotView {
    /// The slot is pending and `header` is one of its coordinates.
    pub open spec fn listens(self, header: WireHeader) -> bool {
        match self {
            SlotView::Pending { primary, alternate } => primary == header || alternate == Some(
                header,
            ),
            _ => false,
        }
    }

    /// The slot listens on `primary` or on the header in `alternate`.
    pub open spec fn listens_either(
        self,
        primary: WireHeader,
        alternate: Option<WireHeader>,
    ) -> bool {
        self.listens(primary) || (alternate matches Some(a) && self.listens(a))
    }

    /// What a pending slot becomes when `header` arrives with `payload`.
    pub open spec fn fire(self, header: WireHeader, payload: Seq<u8>) -> SlotView {
        match self {
            SlotView::Pending { primary, alternate } => SlotView::Ready {
                fired: if primary == header {
                    Fired::Primary
                } else {
                    Fired::Alternate
                },
                payload,
            },
            _ => self,
        }
    }
}

impl RegistryView {
    /// An open registry without slots.
    pub open spec fn empty() -> RegistryView {
        RegistryView { closed: false, slots: Seq::empty() }
    }

    /// No header has two pending slots, and a closed registry has none.
    pub open spec fn wf(self) -> bool {
        &&& forall|i: int, j: int, h: WireHeader|
            0 <= i < self.slots.len() && 0 <= j < self.slots.len() && #[trigger] self.slots[i].listens(
                h,
            ) && #[trigger] self.slots[j].listens(h) ==> i == j
        &&& self.closed ==> forall|i: int|
            0 <= i < self.slots.len() ==> !(#[trigger] self.slots[i] is Pending)
    }

    /// Some pending slot listens on `header`.
    pub open spec fn has_listener(self, header: WireHeader) -> bool {
        exists|i: int| 0 <= i < self.slots.len() && #[trigger] self.slots[i].listens(header)
    }

    /// Slot `i` listens on `header` and no slot before it does.
    pub open spec fn is_first_listener(self, header: WireHeader, i: int) -> bool {
        &&& 0 <= i < self.slots.len()
        &&& self.slots[i].listens(header)
        &&& forall|j: int| 0 <= j < i ==> !(#[trigger] self.slots[j].listens(header))
    }

    /// The first slot that listens on `header`, where there is one.
    pub open spec fn listener(self, header: WireHeader) -> int {
        choose|i: int| self.is_first_listener(header, i)
    }

    /// Every slot is vacant.
    pub open spec fn is_empty(self) -> bool {
        forall|i: int| 0 <= i < self.slots.len() ==> #[trigger] self.slots[i] is Free
    }

    /// Index `i` can take a new slot: it is vacant, or one past the end.
    pub open spec fn vacant(self, i: int) -> bool {
        0 <= i <= self.slots.len() && (i < self.slots.len() ==> self.slots[i] is Free)
    }

    /// The state behind a handle; a handle without a slot sees `Free`.
    pub open spec fn state_of(self, handle: Option<int>) -> SlotView {
        match handle {
            Some(i) => if 0 <= i < self.slots.len() {
                self.slots[i]
            } else {
                SlotView::Free
            },
            None => SlotView::Free,
        }
    }

    /// Every pending slot that listens on one of the two headers is closed.
    pub open spec fn displace(self, primary: WireHeader, alternate: Option<WireHeader>) -> RegistryView {
        RegistryView {
            closed: self.closed,
            slots: Seq::new(
                self.slots.len(),
                |i: int|
                    if self.slots[i].listens_either(primary, alternate) {
                        SlotView::Closed
                    } else {
                        self.slots[i]
                    },
            ),
        }
    }

    /// Slot `i` holds `slot`; the sequence grows by one where `i` is its length.
    pub open spec fn install(self, i: int, slot: SlotView) -> RegistryView {
        RegistryView {
            closed: self.closed,
            slots: if i == self.slots.len() {
                self.slots.push(slot)
            } else {
                self.slots.update(i, slot)
            },
        }
    }

    /// Registering a waiter at index `i`: earlier waiters on its headers are
    /// closed first. A closed registry takes no waiter.
    pub open spec fn wait_at(
        self,
        primary: WireHeader,
        alternate: Option<WireHeader>,
        i: int,
    ) -> RegistryView {
        if self.closed {
            self
        } else {
            self.displace(primary, alternate).install(i, SlotView::Pending { primary, alternate })
        }
    }

    /// A payload arrives on `header`: the slot that listens on it takes it.
    pub open spec fn wake(self, header: WireHeader, payload: Seq<u8>) -> RegistryView {
        if !self.closed && self.has_listener(header) {
            let i = self.listener(header);
            RegistryView {
                closed: false,
                slots: self.slots.update(i, self.slots[i].fire(header, payload)),
            }
        } else {
            self
        }
    }

    /// Slot `i` is closed and the others stay.
    pub open spec fn close_slot(self, i: int) -> RegistryView {
        RegistryView { closed: self.closed, slots: self.slots.update(i, SlotView::Closed) }
    }

    /// Closure: every pending slot is closed, for good.
    pub open spec fn close(self) -> RegistryView {
        RegistryView {
            closed: true,
            slots: Seq::new(
                self.slots.len(),
                |i: int|
                    if self.slots[i] is Pending {
                        SlotView::Closed
                    } else {
                        self.slots[i]
                    },
            ),
        }
    }

    /// The slot behind a handle becomes vacant.
    pub open spec fn release(self, handle: Option<int>) -> RegistryView {
        match handle {
            Some(i) => if 0 <= i < self.slots.len() {
                RegistryView { closed: self.closed, slots: self.slots.update(i, SlotView::Free) }
            } else {
                self
            },
            None => self,
        }
    }

    /// Polling: a pending slot stays, any other is vacated.
    pub open spec fn poll(self, handle: Option<int>) -> RegistryView {
        if self.state_of(handle) is Pending {
            self
        } else {
            self.release(handle)
        }
    }

    /// The registry after the frames of `frames` arrived in order.
    pub open spec fn wake_all(self, frames: Seq<(WireHeader, Seq<u8>)>) -> RegistryView
        decreases frames.len(),
    {
        if frames.len() == 0 {
            self
        } else {
            self.wake(frames[0].0, frames[0].1).wake_all(frames.drop_first())
        }
    }
}

enum Slot {
    Free,
    Pending { primary: WireHeader, alternate: Option<WireHeader> },
    Ready { fired: Fired, payload: Vec<u8> },
    Closed,
}

impl View for Slot {
    type V = SlotView;

    closed spec fn view(&self) -> SlotView {
        match *self {
            Slot::Free => SlotView::Free,
            Slot::Pending { primary, alternate } => SlotView::Pending { primary, alternate },
            Slot::Ready { fired, payload } => SlotView::Ready { fired, payload: payload@ },
            Slot::Closed => SlotView::Closed,
        }
    }
}

impl Slot {
    fn listens(&self, header: &WireHeader) -> (b: bool)
        ensures
            b == self@.listens(*header),
    {
        match self {
            Slot::Pending { primary, alternate } => {
                if *primary == *header {
                    true
                } else {
                    match alternate {
                        Some(a) => *a == *header,
                        None => false,
                    }
                }
            },
            _ => false,
        }
    }

    fn listens_either(&self, primary: &WireHeader, alternate: &Option<WireHeader>) -> (b: bool)
        ensures
            b == self@.listens_either(*primary, *alternate),
    {
        if self.listens(primary) {
            true
        } else {
            match alternate {
                Some(a) => self.listens(a),
                None => false,
            }
        }
    }
}

impl View for Wait {
    type V = Option<int>;

    closed spec fn view(&self) -> Option<int> {
        match self.slot {
            Some(i) => Some(i as int),
            None => None,
        }
    }
}

/// The registry itself.
pub struct WaitRegistry {
    closed: bool,
    slots: Vec<Slot>,
}

impl View for WaitRegistry {
    type V = RegistryView;

    closed spec fn view(&self) -> RegistryView {
        RegistryView { closed: self.closed, slots: self.slots@.map_values(|s: Slot| s@) }
    }
}

impl WaitRegistry {
    /// An open registry without slots.
    pub fn new() -> (r: WaitRegistry)
        ensures
            r@ == RegistryView::empty(),
            r@.wf(),
    {
        let r = WaitRegistry { closed: false, slots: Vec::new() };
        assert(r@.slots =~= Seq::empty());
        r
    }

    /// Whether `close` has been called.
    pub fn is_closed(&self) -> (b: bool)
        ensures
            b == self@.closed,
    {
        self.closed
    }

    /// Whether no slot is in use.
    pub fn is_empty(&self) -> (b: bool)
        ensures
            b == self@.is_empty(),
    {
        let mut i: usize = 0;
        while i < self.slots.len()
            invariant
                i <= self.slots@.len(),
                forall|j: int| 0 <= j < i ==> #[trigger] self@.slots[j] is Free,
            decreases self.slots@.len() - i,
        {
            match self.slots[i] {
                Slot::Free => {},
                _ => {
                    assert(!(self@.slots[i as int] is Free));
                    return false;
                },
            }
            i = i + 1;
        }
        true
    }

    fn find_listener(&self, header: &WireHeader) -> (r: Option<usize>)
        ensures
            match r {
                Some(i) => self@.is_first_listener(*header, i as int) && self@.listener(*header)
                    == i,
                None => !self@.has_listener(*header),
            },
    {
        let mut i: usize = 0;
        while i < self.slots.len()
            invariant
                i <= self.slots@.len(),
                forall|j: int| 0 <= j < i ==> !(#[trigger] self@.slots[j].listens(*header)),
            decreases self.slots@.len() - i,
        {
            if self.slots[i].listens(header) {
                proof {
                    assert(self@.slots[i as int] == self.slots@[i as int]@);
                    assert(self@.is_first_listener(*header, i as int));
                    let c = self@.listener(*header);
                    assert(self@.is_first_listener(*header, c));
                }
                return Some(i);
            }
            assert(self@.slots[i as int] == self.slots@[i as int]@);
            i = i + 1;
        }
        None
    }

    /// Whether a pending slot listens on `header`.
    pub fn has_pending(&self, header: &WireHeader) -> (b: bool)
        ensures
            b == self@.has_listener(*header),
    {
        match self.find_listener(header) {
            Some(_) => true,
            None => false,
        }
    }

    fn find_vacant(&self) -> (i: usize)
        ensures
            self@.vacant(i as int),
    {
        let mut i: usize = 0;
        while i < self.slots.len()
            invariant
                i <= self.slots@.len(),
            decreases self.slots@.len() - i,
        {
            match self.slots[i] {
                Slot::Free => {
                    assert(self@.slots[i as int] == self.slots@[i as int]@);
                    return i;
                },
                _ => {},
            }
            i = i + 1;
        }
        i
    }

    /// Registers a waiter on `header` alone.
    ///
    /// On a closed registry no slot is made and the handle resolves to
    /// `Closed`. Otherwise a pending slot on the same header, if there is one,
    /// is closed, and the new slot is installed at a vacant index, which the
    /// handle names.
    pub fn wait(&mut self, header: WireHeader) -> (w: Wait)
        ensures
            old(self)@.closed ==> w@ is None && final(self)@ == old(self)@,
            !old(self)@.closed ==> w@ is Some && old(self)@.vacant(w@->0) && final(self)@ == old(
                self,
            )@.wait_at(header, None, w@->0),
            old(self)@.wf() ==> final(self)@.wf(),
    {
        self.wait_either(header, None)
    }

    /// Registers one waiter on two headers at once: whichever of them arrives
    /// first resolves the wait, and the other then finds no listener.
    ///
    /// On a closed registry no slot is made and the handle resolves to
    /// `Closed`. Otherwise every pending slot that listens on one of the two
    /// headers is closed, and the new slot is installed at a vacant index,
    /// which the handle names.
    pub fn wait_either(&mut self, primary: WireHeader, alternate: Option<WireHeader>) -> (w: Wait)
        ensures
            old(self)@.closed ==> w@ is None && final(self)@ == old(self)@,
            !old(self)@.closed ==> w@ is Some && old(self)@.vacant(w@->0) && final(self)@ == old(
                self,
            )@.wait_at(primary, alternate, w@->0),
            old(self)@.wf() ==> final(self)@.wf(),
    {
        if self.closed {
            return Wait { slot: None };
        }
        let ghost before = self@;
        let mut i: usize = 0;
        while i < self.slots.len()
            invariant
                i <= self.slots@.len(),
                self@.closed == before.closed,
                self@.slots.len() == before.slots.len(),
                before.wf() ==> self@.wf(),
                forall|j: int|
                    0 <= j < i ==> #[trigger] self@.slots[j] == before.displace(
                        primary,
                        alternate,
                    ).slots[j],
                forall|j: int|
                    i <= j < before.slots.len() ==> #[trigger] self@.slots[j] == before.slots[j],
            decreases self.slots@.len() - i,
        {
            assert(self@.slots[i as int] == self.slots@[i as int]@);
            if self.slots[i].listens_either(&primary, &alternate) {
                let ghost prev = self@;
                self.slots[i] = Slot::Closed;
                proof {
                    assert(self@.slots =~= prev.slots.update(i as int, SlotView::Closed));
                    if before.wf() {
                        lemma_close_slot_wf(prev, i as int);
                    }
                }
            }
            i = i + 1;
        }
        proof {
            assert(self@.slots =~= before.displace(primary, alternate).slots);
            lemma_displace_vacant(before, primary, alternate);
        }
        let at = self.find_vacant();
        let ghost displaced = self@;
        let slot = Slot::Pending { primary, alternate };
        proof {
            if before.wf() {
                lemma_wait_at_wf(before, primary, alternate, at as int);
            }
        }
        if at == self.slots.len() {
            self.slots.push(slot);
            assert(self@.slots =~= displaced.slots.push(slot@));
        } else {
            self.slots[at] = slot;
            assert(self@.slots =~= displaced.slots.update(at as int, slot@));
        }
        Wait { slot: Some(at) }
    }

    /// Hands `payload` to the slot that listens on `header`.
    ///
    /// On a closed registry nothing changes and the payload comes back as
    /// `Closed`. Where a pending slot listens on the header it becomes ready
    /// with the payload and the outcome is `Woke`. Otherwise nothing changes
    /// and the payload comes back as `NoMatch`.
    pub fn wake(&mut self, header: &WireHeader, payload: Vec<u8>) -> (outcome: WakeOutcome)
        ensures
            final(self)@ == old(self)@.wake(*header, payload@),
            old(self)@.wf() ==> final(self)@.wf(),
            match outcome {
                WakeOutcome::Woke => !old(self)@.closed && old(self)@.has_listener(*header),
                WakeOutcome::NoMatch(back) => !old(self)@.closed && !old(self)@.has_listener(
                    *header,
                ) && back@ == payload@,
                WakeOutcome::Closed(back) => old(self)@.closed && back@ == payload@,
            },
    {
        if self.closed {
            return WakeOutcome::Closed(payload);
        }
        match self.find_listener(header) {
            Some(i) => {
                let ghost before = self@;
                let fired = match &self.slots[i] {
                    Slot::Pending { primary, alternate } => {
                        if *primary == *header {
                            Fired::Primary
                        } else {
                            Fired::Alternate
                        }
                    },
                    _ => Fired::Primary,
                };
                assert(before.slots[i as int] == self.slots@[i as int]@);
                let ghost bytes = payload@;
                self.slots[i] = Slot::Ready { fired, payload };
                proof {
                    assert(self@.slots =~= before.slots.update(
                        i as int,
                        before.slots[i as int].fire(*header, bytes),
                    ));
                    assert(before.has_listener(*header));
                    if before.wf() {
                        lemma_wake_wf(before, *header, bytes);
                    }
                }
                WakeOutcome::Woke
            },
            None => WakeOutcome::NoMatch(payload),
        }
    }

    /// Closes the registry: every pending slot is closed, and from now on
    /// every `wait` resolves to `Closed` and every `wake` returns `Closed`.
    pub fn close(&mut self)
        ensures
            final(self)@ == old(self)@.close(),
            old(self)@.wf() ==> final(self)@.wf(),
    {
        let ghost before = self@;
        let mut i: usize = 0;
        while i < self.slots.len()
            invariant
                i <= self.slots@.len(),
                self@.closed == before.closed,
                self@.slots.len() == before.slots.len(),
                before.wf() ==> self@.wf(),
                forall|j: int| 0 <= j < i ==> #[trigger] self@.slots[j] == before.close().slots[j],
                forall|j: int|
                    i <= j < before.slots.len() ==> #[trigger] self@.slots[j] == before.slots[j],
            decreases self.slots@.len() - i,
        {
            assert(self@.slots[i as int] == self.slots@[i as int]@);
            let pending = match &self.slots[i] {
                Slot::Pending { .. } => true,
                _ => false,
            };
            if pending {
                let ghost prev = self@;
                self.slots[i] = Slot::Closed;
                proof {
                    assert(self@.slots =~= prev.slots.update(i as int, SlotView::Closed));
                    if before.wf() {
                        lemma_close_slot_wf(prev, i as int);
                    }
                }
            }
            i = i + 1;
        }
        proof {
            assert(self@.slots =~= before.close().slots);
            if before.wf() {
                lemma_close_wf(before);
            }
        }
        self.closed = true;
    }

    /// Looks at the slot behind a handle.
    ///
    /// A pending slot stays as it is and the handle comes back. A ready slot
    /// gives up its payload, a closed one resolves to `Closed`, and so does a
    /// handle that has no slot; in each of these cases the slot is vacant
    /// afterwards.
    pub fn poll(&mut self, w: Wait) -> (polled: Polled)
        ensures
            final(self)@ == old(self)@.poll(w@),
            old(self)@.wf() ==> final(self)@.wf(),
            match old(self)@.state_of(w@) {
                SlotView::Pending { .. } => polled matches Polled::Pending(back) && back@ == w@,
                SlotView::Ready { fired, payload } => polled matches Polled::Ready(Ok(d))
                    && d.fired == fired && d.payload@ == payload,
                _ => polled matches Polled::Ready(Err(WaitError::Closed)),
            },
    {
        let i = match w.slot {
            Some(i) => i,
            None => {
                return Polled::Ready(Err(WaitError::Closed));
            },
        };
        if i >= self.slots.len() {
            return Polled::Ready(Err(WaitError::Closed));
        }
        assert(self@.slots[i as int] == self.slots@[i as int]@);
        let pending = match &self.slots[i] {
            Slot::Pending { .. } => true,
            _ => false,
        };
        if pending {
            return Polled::Pending(w);
        }
        let ghost before = self@;
        proof {
            if before.wf() {
                lemma_release_wf(before, Some(i as int));
            }
        }
        self.slots.push(Slot::Free);
        let taken = self.slots.swap_remove(i);
        assert(self@.slots =~= before.slots.update(i as int, SlotView::Free));
        match taken {
            Slot::Ready { fired, payload } => Polled::Ready(Ok(Delivered { fired, payload })),
            _ => Polled::Ready(Err(WaitError::Closed)),
        }
    }

    /// Gives a wait up: its slot, whatever state it is in, becomes vacant, and
    /// a payload that waited there is dropped. A handle without a slot changes
    /// nothing.
    pub fn cancel(&mut self, w: Wait)
        ensures
            final(self)@ == old(self)@.release(w@),
            old(self)@.wf() ==> final(self)@.wf(),
    {
        match w.slot {
            Some(i) => {
                if i < self.slots.len() {
                    let ghost before = self@;
                    proof {
                        if before.wf() {
                            lemma_release_wf(before, Some(i as int));
                        }
                    }
                    self.slots[i] = Slot::Free;
                    assert(self@.slots =~= before.slots.update(i as int, SlotView::Free));
                }
            },
            None => {},
        }
    }
}

/// Closing one slot keeps a registry well formed.
pub proof fn lemma_close_slot_wf(r: RegistryView, i: int)
    requires
        r.wf(),
        0 <= i < r.slots.len(),
    ensures
        r.close_slot(i).wf(),
{
    let after = r.close_slot(i);
    assert forall|a: int, b: int, h: WireHeader|
        0 <= a < after.slots.len() && 0 <= b < after.slots.len() && #[trigger] after.slots[a].listens(
            h,
        ) && #[trigger] after.slots[b].listens(h) implies a == b by {
        assert(r.slots[a].listens(h));
        assert(r.slots[b].listens(h));
    }
    assert forall|a: int| 0 <= a < after.slots.len() && after.closed implies !(
    #[trigger] after.slots[a] is Pending) by {
        if a != i {
            assert(!(r.slots[a] is Pending));
        }
    }
}

/// After the waiters on two headers are closed, nobody listens on either, and
/// what was vacant still is.
pub proof fn lemma_displace_vacant(r: RegistryView, primary: WireHeader, alternate: Option<WireHeader>)
    ensures
        !r.displace(primary, alternate).has_listener(primary),
        alternate matches Some(a) ==> !r.displace(primary, alternate).has_listener(a),
        forall|i: int| r.vacant(i) <==> r.displace(primary, alternate).vacant(i),
{
    let d = r.displace(primary, alternate);
    assert forall|i: int| 0 <= i < d.slots.len() implies !(#[trigger] d.slots[i].listens(primary)) by {
    }
    if let Some(a) = alternate {
        assert forall|i: int| 0 <= i < d.slots.len() implies !(#[trigger] d.slots[i].listens(a)) by {
        }
    }
    assert forall|i: int| r.vacant(i) <==> d.vacant(i) by {
        if 0 <= i < r.slots.len() {
            assert(d.slots[i] is Free <==> r.slots[i] is Free);
        }
    }
}

/// Registering a waiter at a vacant index keeps a registry well formed.
pub proof fn lemma_wait_at_wf(
    r: RegistryView,
    primary: WireHeader,
    alternate: Option<WireHeader>,
    i: int,
)
    requires
        r.wf(),
        r.vacant(i),
    ensures
        r.wait_at(primary, alternate, i).wf(),
{
    if !r.closed {
        let d = r.displace(primary, alternate);
        let after = r.wait_at(primary, alternate, i);
        let fresh = SlotView::Pending { primary, alternate };
        assert forall|a: int, b: int, h: WireHeader|
            0 <= a < after.slots.len() && 0 <= b < after.slots.len()
                && #[trigger] after.slots[a].listens(h) && #[trigger] after.slots[b].listens(
                h,
            ) implies a == b by {
            if a != i && b != i {
                assert(d.slots[a].listens(h));
                assert(d.slots[b].listens(h));
                assert(r.slots[a].listens(h));
                assert(r.slots[b].listens(h));
            } else if a != i {
                assert(after.slots[a] == d.slots[a]);
                assert(r.slots[a].listens(h));
                assert(fresh.listens(h));
                assert(r.slots[a].listens_either(primary, alternate));
            } else if b != i {
                assert(after.slots[b] == d.slots[b]);
                assert(r.slots[b].listens(h));
                assert(fresh.listens(h));
                assert(r.slots[b].listens_either(primary, alternate));
            }
        }
    }
}

/// Where slot `k` listens on a header, some slot is the first to do so.
proof fn lemma_some_first_listener(r: RegistryView, header: WireHeader, k: int)
    requires
        0 <= k < r.slots.len(),
        r.slots[k].listens(header),
    ensures
        r.is_first_listener(header, r.listener(header)),
        r.listener(header) <= k,
    decreases k,
{
    if exists|j: int| 0 <= j < k && #[trigger] r.slots[j].listens(header) {
        let j = choose|j: int| 0 <= j < k && #[trigger] r.slots[j].listens(header);
        lemma_some_first_listener(r, header, j);
    } else {
        assert(r.is_first_listener(header, k));
        let c = r.listener(header);
        assert(r.is_first_listener(header, c));
    }
}

/// The slot that a wake picks listens on the header, and in a well-formed
/// registry it is the only one that does.
pub proof fn lemma_listener(r: RegistryView, header: WireHeader)
    requires
        r.has_listener(header),
    ensures
        r.is_first_listener(header, r.listener(header)),
        r.wf() ==> forall|k: int|
            0 <= k < r.slots.len() && #[trigger] r.slots[k].listens(header) ==> k == r.listener(
                header,
            ),
{
    let k = choose|k: int| 0 <= k < r.slots.len() && #[trigger] r.slots[k].listens(header);
    lemma_some_first_listener(r, header, k);
}

/// A wake keeps a registry well formed.
pub proof fn lemma_wake_wf(r: RegistryView, header: WireHeader, payload: Seq<u8>)
    requires
        r.wf(),
    ensures
        r.wake(header, payload).wf(),
{
    let after = r.wake(header, payload);
    if !r.closed && r.has_listener(header) {
        let i = r.listener(header);
        lemma_listener(r, header);
        assert forall|a: int, b: int, h: WireHeader|
            0 <= a < after.slots.len() && 0 <= b < after.slots.len()
                && #[trigger] after.slots[a].listens(h) && #[trigger] after.slots[b].listens(
                h,
            ) implies a == b by {
            assert(r.slots[a].listens(h));
            assert(r.slots[b].listens(h));
        }
    }
}

/// Closure keeps a registry well formed.
pub proof fn lemma_close_wf(r: RegistryView)
    requires
        r.wf(),
    ensures
        r.close().wf(),
{
    let after = r.close();
    assert forall|a: int, b: int, h: WireHeader|
        0 <= a < after.slots.len() && 0 <= b < after.slots.len() && #[trigger] after.slots[a].listens(
            h,
        ) && #[trigger] after.slots[b].listens(h) implies a == b by {
        assert(r.slots[a].listens(h));
    }
}

/// Vacating a slot keeps a registry well formed.
pub proof fn lemma_release_wf(r: RegistryView, handle: Option<int>)
    requires
        r.wf(),
    ensures
        r.release(handle).wf(),
        r.poll(handle).wf(),
{
    let after = r.release(handle);
    assert forall|a: int, b: int, h: WireHeader|
        0 <= a < after.slots.len() && 0 <= b < after.slots.len() && #[trigger] after.slots[a].listens(
            h,
        ) && #[trigger] after.slots[b].listens(h) implies a == b by {
        assert(r.slots[a].listens(h));
        assert(r.slots[b].listens(h));
    }
    assert forall|a: int| 0 <= a < after.slots.len() && after.closed implies !(
    #[trigger] after.slots[a] is Pending) by {
        if handle != Some(a) {
            assert(!(r.slots[a] is Pending));
        }
    }
}

/// What one arriving frame does, slot by slot: in an open, well-formed
/// registry exactly the slots that listen on its header take the payload, and
/// every other slot stays as it was.
pub proof fn lemma_wake_slots(r: RegistryView, header: WireHeader, payload: Seq<u8>)
    requires
        r.wf(),
    ensures
        r.wake(header, payload).closed == r.closed,
        r.wake(header, payload).slots.len() == r.slots.len(),
        forall|j: int|
            0 <= j < r.slots.len() ==> #[trigger] r.wake(header, payload).slots[j] == (if r.slots[j].listens(
                header,
            ) {
                r.slots[j].fire(header, payload)
            } else {
                r.slots[j]
            }),
{
    let after = r.wake(header, payload);
    if !r.closed && r.has_listener(header) {
        lemma_listener(r, header);
    }
    assert forall|j: int| 0 <= j < r.slots.len() implies #[trigger] after.slots[j] == (if r.slots[j].listens(
        header,
    ) {
        r.slots[j].fire(header, payload)
    } else {
        r.slots[j]
    }) by {
        if r.slots[j].listens(header) {
            assert(r.slots[j] is Pending);
            assert(!r.closed);
            assert(r.has_listener(header));
        }
    }
}

/// Frames addressed to others leave a slot alone: where no frame of a
/// sequence carries a header that slot `i` listens on, the slot is the same
/// after all of them have arrived.
pub proof fn lemma_unaddressed_slot_stays(
    r: RegistryView,
    frames: Seq<(WireHeader, Seq<u8>)>,
    i: int,
)
    requires
        r.wf(),
        0 <= i < r.slots.len(),
        forall|j: int| 0 <= j < frames.len() ==> !r.slots[i].listens(#[trigger] frames[j].0),
    ensures
        r.wake_all(frames).wf(),
        r.wake_all(frames).slots.len() == r.slots.len(),
        r.wake_all(frames).slots[i] == r.slots[i],
    decreases frames.len(),
{
    if frames.len() > 0 {
        let next = r.wake(frames[0].0, frames[0].1);
        lemma_wake_wf(r, frames[0].0, frames[0].1);
        lemma_wake_slots(r, frames[0].0, frames[0].1);
        let rest = frames.drop_first();
        assert(next.slots[i] == r.slots[i]);
        assert forall|j: int| 0 <= j < rest.len() implies !next.slots[i].listens(
            #[trigger] rest[j].0,
        ) by {
            assert(rest[j] == frames[j + 1]);
        }
        lemma_unaddressed_slot_stays(next, rest, i);
    }
}

/// Replies find their waiter, in whatever order they come. Where frame `k`
/// is the first of a sequence whose header slot `i` listens on, the slot holds
/// that frame's payload after all of them have arrived: the frames before it
/// went elsewhere, and those after it cannot replace it.
pub proof fn lemma_reply_reaches_its_waiter(
    r: RegistryView,
    frames: Seq<(WireHeader, Seq<u8>)>,
    i: int,
    k: int,
)
    requires
        r.wf(),
        0 <= i < r.slots.len(),
        0 <= k < frames.len(),
        r.slots[i].listens(frames[k].0),
        forall|j: int| 0 <= j < k ==> !r.slots[i].listens(#[trigger] frames[j].0),
    ensures
        r.wake_all(frames).slots.len() == r.slots.len(),
        r.wake_all(frames).slots[i] == r.slots[i].fire(frames[k].0, frames[k].1),
    decreases frames.len(),
{
    let next = r.wake(frames[0].0, frames[0].1);
    lemma_wake_wf(r, frames[0].0, frames[0].1);
    lemma_wake_slots(r, frames[0].0, frames[0].1);
    let rest = frames.drop_first();
    if k == 0 {
        assert(next.slots[i] is Ready);
        lemma_unaddressed_slot_stays(next, rest, i);
    } else {
        assert(!r.slots[i].listens(frames[0].0));
        assert(next.slots[i] == r.slots[i]);
        assert(rest[k - 1] == frames[k]);
        assert forall|j: int| 0 <= j < k - 1 implies !next.slots[i].listens(
            #[trigger] rest[j].0,
        ) by {
            assert(rest[j] == frames[j + 1]);
        }
        lemma_reply_reaches_its_waiter(next, rest, i, k - 1);
    }
}

/// Of a reply and an error for the same request, the one that arrives first
/// is the one the waiter gets; the other finds no listener and changes
/// nothing.
pub proof fn lemma_first_wake_wins(
    r: RegistryView,
    i: int,
    reply: WireHeader,
    error: WireHeader,
    first: Seq<u8>,
    second: Seq<u8>,
)
    requires
        r.wf(),
        0 <= i < r.slots.len(),
        r.slots[i] == (SlotView::Pending { primary: reply, alternate: Some(error) }),
    ensures
        r.wake(reply, first).slots[i] == (SlotView::Ready { fired: Fired::Primary, payload: first }),
        !r.wake(reply, first).has_listener(error),
        r.wake(reply, first).wake(error, second) == r.wake(reply, first),
        reply != error ==> r.wake(error, first).slots[i] == (SlotView::Ready {
            fired: Fired::Alternate,
            payload: first,
        }),
        !r.wake(error, first).has_listener(reply),
        r.wake(error, first).wake(reply, second) == r.wake(error, first),
{
    lemma_wake_slots(r, reply, first);
    lemma_wake_slots(r, error, first);
    let a = r.wake(reply, first);
    let b = r.wake(error, first);
    assert(r.slots[i].listens(reply));
    assert(r.slots[i].listens(error));
    assert forall|j: int| 0 <= j < a.slots.len() implies !(#[trigger] a.slots[j].listens(error)) by {
        if r.slots[j].listens(error) {
            assert(j == i);
        }
    }
    assert forall|j: int| 0 <= j < b.slots.len() implies !(#[trigger] b.slots[j].listens(reply)) by {
        if r.slots[j].listens(reply) {
            assert(j == i);
        }
    }
}

/// A wait that is given up leaves nothing behind: its slot is vacant and no
/// slot listens on its headers any more, so a late reply finds no match.
pub proof fn lemma_cancel_leaves_nothing(
    r: RegistryView,
    i: int,
    header: WireHeader,
    payload: Seq<u8>,
)
    requires
        r.wf(),
        0 <= i < r.slots.len(),
        r.slots[i].listens(header),
    ensures
        r.release(Some(i)).slots[i] is Free,
        !r.release(Some(i)).has_listener(header),
        r.release(Some(i)).wake(header, payload) == r.release(Some(i)),
        (forall|j: int| 0 <= j < r.slots.len() && j != i ==> #[trigger] r.slots[j] is Free)
            ==> r.release(Some(i)).is_empty(),
{
    let after = r.release(Some(i));
    assert forall|j: int| 0 <= j < after.slots.len() implies !(#[trigger] after.slots[j].listens(
        header,
    )) by {
        if j != i && r.slots[j].listens(header) {
            assert(r.slots[i].listens(header));
        }
    }
}

/// A second wait on a header takes it over: the first waiter's slot is
/// closed, so its poll resolves to `Closed`, and the second is pending.
pub proof fn lemma_second_wait_displaces_first(
    r: RegistryView,
    header: WireHeader,
    first: int,
    second: int,
)
    requires
        !r.closed,
        r.vacant(first),
        r.wait_at(header, None, first).vacant(second),
    ensures
        first != second,
        r.wait_at(header, None, first).slots[first] == (SlotView::Pending {
            primary: header,
            alternate: None,
        }),
        r.wait_at(header, None, first).wait_at(header, None, second).slots[first] is Closed,
        r.wait_at(header, None, first).wait_at(header, None, second).slots[second] == (
        SlotView::Pending { primary: header, alternate: None }),
{
    let one = r.wait_at(header, None, first);
    assert(one.slots[first].listens(header));
    assert(one.slots[first].listens_either(header, None));
}

/// Closure is final. A closed registry takes no waiter and no payload, has no
/// pending slot, and no operation opens it again.
pub proof fn lemma_closure_is_terminal(
    r: RegistryView,
    primary: WireHeader,
    alternate: Option<WireHeader>,
    payload: Seq<u8>,
    i: int,
    handle: Option<int>,
)
    ensures
        r.close().closed,
        forall|j: int| 0 <= j < r.close().slots.len() ==> !(#[trigger] r.close().slots[j] is Pending),
        !r.close().has_listener(primary),
        r.closed ==> r.wait_at(primary, alternate, i) == r,
        r.closed ==> r.wake(primary, payload) == r,
        r.closed ==> r.close().closed && r.poll(handle).closed && r.release(handle).closed,
        r.closed && r.wf() ==> r.close() == r,
{
    let c = r.close();
    assert forall|j: int| 0 <= j < c.slots.len() implies !(#[trigger] c.slots[j].listens(primary)) by {
    }
    if r.closed && r.wf() {
        assert(c.slots =~= r.slots);
    }
}

} // verus!
