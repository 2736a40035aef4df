//! The subscription table: at most one delivery channel per topic key.
//!
//! A subscription is a bounded channel. The subscriber keeps the receiving
//! end; the sending end travels to the inbound pump as a `SubInfo` and is
//! installed in the table. Delivery never waits: a frame for a full channel
//! is dropped, and that is all a slow subscriber can cause.

use crate::wire::Key;
use crate::wire::RpcFrame;
use tokio::sync::mpsc::error::TrySendError;
use tokio::sync::mpsc::Receiver;
use tokio::sync::mpsc::Sender;
use vstd::prelude::*;

verus! {

/// The sending end of a bounded `tokio` channel. Nothing is known of a value
/// of this type but what the functions below say of it.
#[verifier::external_type_specification]
#[verifier::external_body]
#[verifier::reject_recursive_types(T)]
pub struct ExSender<T>(Sender<T>);

/// The receiving end of a bounded `tokio` channel.
#[verifier::external_type_specification]
#[verifier::external_body]
#[verifier::reject_recursive_types(T)]
pub struct ExReceiver<T>(Receiver<T>);

/// A new subscription that should be accounted for
pub struct SubInfo {
    pub key: Key,
    pub tx: Sender<RpcFrame>,
}

/// A structure that represents a subscription to the given topic
pub struct Subscription {
    rx: Receiver<RpcFrame>,
}

/// What became of a topic frame.
#[derive(Clone, Copy, Debug, PartialEq, Eq, Structural)]
pub enum Delivery {
    /// The frame is in the subscriber's channel.
    Delivered,
    /// Nobody subscribes to the key, or the subscriber is gone.
    NoSubscriber,
    /// The subscriber's channel is full; the frame is lost.
    SlowConsumer,
}

/// What a channel said to a push that does not wait.
#[derive(Clone, Copy, Debug, PartialEq, Eq, Structural)]
pub enum TrySend {
    /// The channel took the frame.
    Sent,
    /// The channel is at its depth.
    Full,
    /// The receiving end is closed or dropped.
    Closed,
}

/// What `Subscription::recv` does after one receive.
#[derive(Debug, PartialEq, Eq)]
pub enum RecvStep<M> {
    /// Hand this message to the subscriber.
    Yield(M),
    /// The frame did not decode: drop it and receive again.
    Skip,
    /// The channel is closed and drained: the subscription is over.
    End,
}

/// The number of frames that the channel behind a sender was made to hold:
/// what `tokio::sync::mpsc::Sender::max_capacity` reports, which stays the
/// same for as long as the channel exists.
pub uninterp spec fn depth_of(tx: Sender<RpcFrame>) -> nat;

/// `tokio::sync::mpsc::channel`: makes a bounded channel of the given depth.
/// The call panics on a depth of zero and on one above `usize::MAX >> 3`,
/// which `requires` leaves out. The claim is that the channel is made with
/// the depth asked for; nothing is claimed of what it holds.
#[verifier::external_body]
fn channel(depth: usize) -> (ends: (Sender<RpcFrame>, Receiver<RpcFrame>))
    requires
        0 < depth <= usize::MAX / 8,
    ensures
        depth_of(ends.0) == depth,
{
    tokio::sync::mpsc::channel(depth)
}

/// `tokio::sync::mpsc::Sender::try_send`: pushes without waiting. The result
/// depends on what the channel holds and on whether its receiver lives, so
/// nothing is claimed of it; a frame that was not taken is dropped here.
#[verifier::external_body]
fn try_send(tx: &Sender<RpcFrame>, frame: RpcFrame) -> (sent: TrySend) {
    match tx.try_send(frame) {
        Ok(()) => TrySend::Sent,
        Err(TrySendError::Full(_)) => TrySend::Full,
        Err(TrySendError::Closed(_)) => TrySend::Closed,
    }
}

impl SubInfo {
    /// A bounded channel of `depth` frames for `key`: the registration that
    /// carries its sending end, and the subscription that holds the receiving
    /// end.
    pub fn channel(key: Key, depth: usize) -> (ends: (SubInfo, Subscription))
        requires
            0 < depth <= usize::MAX / 8,
        ensures
            ends.0.key == key,
            depth_of(ends.0.tx) == depth,
    {
        let (tx, rx) = channel(depth);
        (SubInfo { key, tx }, Subscription { rx })
    }
}

impl Subscription {
    /// The receiving end that the subscription holds.
    pub closed spec fn receiver(self) -> Receiver<RpcFrame> {
        self.rx
    }

    /// The receiving end, for the task that awaits frames on it.
    pub fn into_receiver(self) -> (rx: Receiver<RpcFrame>)
        ensures
            rx == self.receiver(),
    {
        self.rx
    }

    /// Decides what a receive leads to. `None` stands for a channel that is
    /// closed and drained; otherwise the argument says whether the frame's
    /// payload decoded. A payload that does not decode is skipped without a
    /// word: there is no caller to blame for a single malformed message.
    pub fn recv<M, E>(received: Option<Result<M, E>>) -> (step: RecvStep<M>)
        ensures
            step == match received {
                Some(Ok(message)) => RecvStep::Yield(message),
                Some(Err(_)) => RecvStep::<M>::Skip,
                None => RecvStep::<M>::End,
            },
    {
        match received {
            Some(Ok(message)) => RecvStep::Yield(message),
            Some(Err(_)) => RecvStep::Skip,
            None => RecvStep::End,
        }
    }
}

/// Entry `i` carries `key` and no entry before it does.
pub open spec fn is_first_entry(entries: Seq<SubInfo>, key: Key, i: int) -> bool {
    &&& 0 <= i < entries.len()
    &&& entries[i].key == key
    &&& forall|j: int| 0 <= j < i ==> (#[trigger] entries[j]).key != key
}

/// Some entry carries `key`.
pub open spec fn has_entry(entries: Seq<SubInfo>, key: Key) -> bool {
    exists|i: int| 0 <= i < entries.len() && (#[trigger] entries[i]).key == key
}

/// The first entry that carries `key`, where there is one.
pub open spec fn first_entry(entries: Seq<SubInfo>, key: Key) -> int {
    choose|i: int| is_first_entry(entries, key, i)
}

/// The map that a sequence of registrations stands for: each key that occurs
/// in it, with the sender of the first entry that carries it.
pub open spec fn table_of(entries: Seq<SubInfo>) -> Map<Key, Sender<RpcFrame>> {
    Map::new(|k: Key| has_entry(entries, k), |k: Key| entries[first_entry(entries, k)].tx)
}

proof fn lemma_first_entry_at(entries: Seq<SubInfo>, key: Key, i: int)
    requires
        is_first_entry(entries, key, i),
    ensures
        has_entry(entries, key),
        first_entry(entries, key) == i,
        table_of(entries).dom().contains(key),
        table_of(entries)[key] == entries[i].tx,
{
    let c = first_entry(entries, key);
    assert(is_first_entry(entries, key, c));
}

proof fn lemma_some_first_entry(entries: Seq<SubInfo>, key: Key, k: int)
    requires
        0 <= k < entries.len(),
        entries[k].key == key,
    ensures
        is_first_entry(entries, key, first_entry(entries, key)),
        first_entry(entries, key) <= k,
    decreases k,
{
    if exists|j: int| 0 <= j < k && (#[trigger] entries[j]).key == key {
        let j = choose|j: int| 0 <= j < k && (#[trigger] entries[j]).key == key;
        lemma_some_first_entry(entries, key, j);
    } else {
        assert(is_first_entry(entries, key, k));
        lemma_first_entry_at(entries, key, k);
    }
}

proof fn lemma_first_entry(entries: Seq<SubInfo>, key: Key)
    requires
        has_entry(entries, key),
    ensures
        is_first_entry(entries, key, first_entry(entries, key)),
{
    let k = choose|k: int| 0 <= k < entries.len() && (#[trigger] entries[k]).key == key;
    lemma_some_first_entry(entries, key, k);
}

/// Two sequences in which `key` first occurs with the same sender, or in
/// neither, stand for tables that agree on `key`.
proof fn lemma_same_first(a: Seq<SubInfo>, b: Seq<SubInfo>, key: Key, i: int, j: int)
    requires
        is_first_entry(a, key, i),
        is_first_entry(b, key, j),
        a[i].tx == b[j].tx,
    ensures
        table_of(a).dom().contains(key),
        table_of(b).dom().contains(key),
        table_of(a)[key] == table_of(b)[key],
{
    lemma_first_entry_at(a, key, i);
    lemma_first_entry_at(b, key, j);
}

/// Taking out an entry leaves the table as it was for every other key.
proof fn lemma_remove_entry(entries: Seq<SubInfo>, i: int, other: Key)
    requires
        0 <= i < entries.len(),
        entries[i].key != other,
    ensures
        table_of(entries.remove(i)).dom().contains(other) == table_of(entries).dom().contains(
            other,
        ),
        table_of(entries).dom().contains(other) ==> table_of(entries.remove(i))[other] == table_of(
            entries,
        )[other],
{
    let after = entries.remove(i);
    if has_entry(entries, other) {
        lemma_first_entry(entries, other);
        let f = first_entry(entries, other);
        let g = if f < i {
            f
        } else {
            f - 1
        };
        assert(after[g] == entries[f]);
        assert forall|j: int| 0 <= j < g implies (#[trigger] after[j]).key != other by {
            let j0 = if j < i {
                j
            } else {
                j + 1
            };
            assert(after[j] == entries[j0]);
        }
        assert(is_first_entry(after, other, g));
        lemma_same_first(after, entries, other, g, f);
    }
    if has_entry(after, other) {
        let c = choose|c: int| 0 <= c < after.len() && (#[trigger] after[c]).key == other;
        let c0 = if c < i {
            c
        } else {
            c + 1
        };
        assert(after[c] == entries[c0]);
        assert(entries[c0].key == other);
    }
}

/// Putting an entry in place of the first one with its key, or at the end
/// where there is none, gives the table with that key set to its sender.
proof fn lemma_put_entry(entries: Seq<SubInfo>, after: Seq<SubInfo>, info: SubInfo, at: int)
    requires
        0 <= at <= entries.len(),
        forall|j: int| 0 <= j < at ==> (#[trigger] entries[j]).key != info.key,
        at < entries.len() ==> entries[at].key == info.key && after == entries.update(at, info),
        at == entries.len() ==> after == entries.push(info),
    ensures
        table_of(after) == table_of(entries).insert(info.key, info.tx),
{
    let want = table_of(entries).insert(info.key, info.tx);
    assert(after[at] == info);
    assert(is_first_entry(after, info.key, at)) by {
        assert forall|j: int| 0 <= j < at implies (#[trigger] after[j]).key != info.key by {
            assert(after[j] == entries[j]);
        }
    }
    lemma_first_entry_at(after, info.key, at);
    assert forall|k: Key| k != info.key implies (#[trigger] table_of(after).dom().contains(k))
        == want.dom().contains(k) && (want.dom().contains(k) ==> table_of(after)[k] == want[k]) by {
        if has_entry(entries, k) {
            lemma_first_entry(entries, k);
            let f = first_entry(entries, k);
            assert(f != at);
            assert(after[f] == entries[f]);
            assert forall|j: int| 0 <= j < f implies (#[trigger] after[j]).key != k by {
                if j != at {
                    assert(after[j] == entries[j]);
                }
            }
            assert(is_first_entry(after, k, f));
            lemma_same_first(after, entries, k, f, f);
        }
        if has_entry(after, k) {
            let c = choose|c: int| 0 <= c < after.len() && (#[trigger] after[c]).key == k;
            assert(c != at);
            assert(after[c] == entries[c]);
            assert(entries[c].key == k);
        }
    }
    assert(table_of(after) =~= want);
}

/// No key occurs twice.
pub open spec fn distinct_keys(entries: Seq<SubInfo>) -> bool {
    forall|i: int, j: int|
        0 <= i < entries.len() && 0 <= j < entries.len() && i != j ==> (#[trigger] entries[i]).key
            != (#[trigger] entries[j]).key
}

proof fn lemma_put_distinct(entries: Seq<SubInfo>, after: Seq<SubInfo>, info: SubInfo, at: int)
    requires
        distinct_keys(entries),
        0 <= at <= entries.len(),
        forall|j: int| 0 <= j < at ==> (#[trigger] entries[j]).key != info.key,
        at < entries.len() ==> entries[at].key == info.key && after == entries.update(at, info),
        at == entries.len() ==> after == entries.push(info),
    ensures
        distinct_keys(after),
{
    assert forall|a: int, b: int|
        0 <= a < after.len() && 0 <= b < after.len() && a != b implies (#[trigger] after[a]).key != (
    #[trigger] after[b]).key by {
        if a != at {
            assert(after[a] == entries[a]);
        }
        if b != at {
            assert(after[b] == entries[b]);
        }
    }
}

proof fn lemma_remove_distinct(entries: Seq<SubInfo>, i: int)
    requires
        distinct_keys(entries),
        0 <= i < entries.len(),
    ensures
        distinct_keys(entries.remove(i)),
{
    let after = entries.remove(i);
    assert forall|a: int, b: int|
        0 <= a < after.len() && 0 <= b < after.len() && a != b implies (#[trigger] after[a]).key != (
    #[trigger] after[b]).key by {
        let a0 = if a < i {
            a
        } else {
            a + 1
        };
        let b0 = if b < i {
            b
        } else {
            b + 1
        };
        assert(after[a] == entries[a0]);
        assert(after[b] == entries[b0]);
    }
}

/// The table itself.
pub struct SubscriptionTable {
    entries: Vec<SubInfo>,
}

impl View for SubscriptionTable {
    type V = Map<Key, Sender<RpcFrame>>;

    /// The installed senders, by key.
    open spec fn view(&self) -> Map<Key, Sender<RpcFrame>> {
        table_of(self.held())
    }
}

impl SubscriptionTable {
    /// Every registration that the table holds. A sender that is not in here
    /// has been dropped by the table.
    pub closed spec fn held(&self) -> Seq<SubInfo> {
        self.entries@
    }

    /// The table's invariant: it holds one registration per key at most, so
    /// what it holds is what its view shows and nothing more.
    pub open spec fn wf(&self) -> bool {
        distinct_keys(self.held())
    }

    /// A table without subscriptions.
    pub fn new() -> (table: SubscriptionTable)
        ensures
            table.held() == Seq::<SubInfo>::empty(),
            table@ == Map::<Key, Sender<RpcFrame>>::empty(),
            table.wf(),
    {
        let table = SubscriptionTable { entries: Vec::new() };
        assert(table.held() =~= Seq::<SubInfo>::empty());
        assert(table@ =~= Map::<Key, Sender<RpcFrame>>::empty());
        table
    }

    fn position(&self, key: &Key) -> (found: Option<usize>)
        ensures
            match found {
                Some(i) => is_first_entry(self.entries@, *key, i as int) && self@.dom().contains(
                    *key,
                ) && self@[*key] == self.entries@[i as int].tx,
                None => !self@.dom().contains(*key) && forall|j: int|
                    0 <= j < self.entries@.len() ==> (#[trigger] self.entries@[j]).key != *key,
            },
    {
        let mut i: usize = 0;
        while i < self.entries.len()
            invariant
                i <= self.entries@.len(),
                forall|j: int| 0 <= j < i ==> (#[trigger] self.entries@[j]).key != *key,
            decreases self.entries@.len() - i,
        {
            if self.entries[i].key == *key {
                proof {
                    lemma_first_entry_at(self.entries@, *key, i as int);
                }
                return Some(i);
            }
            i = i + 1;
        }
        None
    }

    /// Whether a subscription is installed for `key`.
    pub fn contains(&self, key: &Key) -> (b: bool)
        ensures
            b == self@.dom().contains(*key),
    {
        match self.position(key) {
            Some(_) => true,
            None => false,
        }
    }

    /// Whether no subscription is installed.
    pub fn is_empty(&self) -> (b: bool)
        ensures
            b == (self@ == Map::<Key, Sender<RpcFrame>>::empty()),
    {
        let b = self.entries.len() == 0;
        proof {
            if b {
                assert(self@ =~= Map::<Key, Sender<RpcFrame>>::empty());
            } else {
                assert(has_entry(self.entries@, self.entries@[0].key));
                assert(self@.dom().contains(self.entries@[0].key));
            }
        }
        b
    }

    /// Installs a subscription. The sender that was installed for the same
    /// key, if there was one, is dropped, which closes its channel; every
    /// other subscription stays.
    pub fn install(&mut self, info: SubInfo)
        ensures
            final(self)@ == old(self)@.insert(info.key, info.tx),
            old(self).wf() ==> final(self).wf(),
    {
        let ghost before = self.entries@;
        let found = self.position(&info.key);
        match found {
            Some(i) => {
                self.entries[i] = info;
                proof {
                    lemma_put_entry(before, self.entries@, info, i as int);
                    if distinct_keys(before) {
                        lemma_put_distinct(before, self.entries@, info, i as int);
                    }
                }
            },
            None => {
                self.entries.push(info);
                proof {
                    lemma_put_entry(before, self.entries@, info, before.len() as int);
                    if distinct_keys(before) {
                        lemma_put_distinct(before, self.entries@, info, before.len() as int);
                    }
                }
            },
        }
    }

    /// Takes the subscription for `key` out of the table, dropping its sender.
    pub fn remove(&mut self, key: &Key)
        ensures
            final(self)@ == old(self)@.remove(*key),
            old(self).wf() ==> final(self).wf(),
    {
        let ghost before = self.entries@;
        let mut i: usize = 0;
        while i < self.entries.len()
            invariant
                i <= self.entries@.len(),
                distinct_keys(before) ==> distinct_keys(self.entries@),
                forall|j: int| 0 <= j < i ==> (#[trigger] self.entries@[j]).key != *key,
                forall|k: Key|
                    k != *key ==> (#[trigger] table_of(self.entries@).dom().contains(k))
                        == table_of(before).dom().contains(k),
                forall|k: Key|
                    k != *key && table_of(before).dom().contains(k) ==> (#[trigger] table_of(
                        self.entries@,
                    )[k]) == table_of(before)[k],
            decreases self.entries@.len() - i,
        {
            if self.entries[i].key == *key {
                let ghost prev = self.entries@;
                self.entries.remove(i);
                proof {
                    if distinct_keys(before) {
                        lemma_remove_distinct(prev, i as int);
                    }
                    assert forall|k: Key| k != *key implies (#[trigger] table_of(
                        self.entries@,
                    ).dom().contains(k)) == table_of(before).dom().contains(k) by {
                        lemma_remove_entry(prev, i as int, k);
                    }
                    assert forall|k: Key|
                        k != *key && table_of(before).dom().contains(k) implies (
                    #[trigger] table_of(self.entries@)[k]) == table_of(before)[k] by {
                        lemma_remove_entry(prev, i as int, k);
                    }
                    assert forall|j: int| 0 <= j < i implies (#[trigger] self.entries@[j]).key
                        != *key by {
                        assert(self.entries@[j] == prev[j]);
                    }
                }
            } else {
                i = i + 1;
            }
        }
        proof {
            assert(!has_entry(self.entries@, *key));
            assert(self@ =~= old(self)@.remove(*key));
        }
    }

    /// Books the answer of the channel of `key` to a push: a channel that took
    /// the frame or is full stays installed; one whose receiver is gone is
    /// removed, and the frame counts as having had no subscriber.
    pub fn settle(&mut self, key: &Key, sent: TrySend) -> (delivery: Delivery)
        ensures
            delivery == match sent {
                TrySend::Sent => Delivery::Delivered,
                TrySend::Full => Delivery::SlowConsumer,
                TrySend::Closed => Delivery::NoSubscriber,
            },
            final(self)@ == if sent == TrySend::Closed {
                old(self)@.remove(*key)
            } else {
                old(self)@
            },
            sent != TrySend::Closed ==> final(self).held() == old(self).held(),
            old(self).wf() ==> final(self).wf(),
    {
        match sent {
            TrySend::Sent => Delivery::Delivered,
            TrySend::Full => Delivery::SlowConsumer,
            TrySend::Closed => {
                self.remove(key);
                Delivery::NoSubscriber
            },
        }
    }

    /// Pushes a topic frame onto the channel of its key, without waiting.
    ///
    /// Without a subscription for the key the answer is `NoSubscriber` and
    /// nothing changes. With one, the channel decides: the frame is queued
    /// (`Delivered`), or dropped because the channel is full
    /// (`SlowConsumer`), or dropped because the receiver is gone
    /// (`NoSubscriber`), in which case the entry is removed. No other key's
    /// subscription is touched.
    pub fn deliver(&mut self, frame: RpcFrame) -> (delivery: Delivery)
        ensures
            !old(self)@.dom().contains(frame.header.key) ==> delivery == Delivery::NoSubscriber,
            final(self)@ == if delivery == Delivery::NoSubscriber {
                old(self)@.remove(frame.header.key)
            } else {
                old(self)@
            },
            delivery != Delivery::NoSubscriber ==> final(self).held() == old(self).held(),
            old(self).wf() ==> final(self).wf(),
    {
        let key = frame.header.key;
        match self.position(&key) {
            Some(i) => {
                let sent = try_send(&self.entries[i].tx, frame);
                self.settle(&key, sent)
            },
            None => {
                assert(self@ =~= self@.remove(key));
                Delivery::NoSubscriber
            },
        }
    }

    /// Drops every sender: each subscriber sees the end of its stream once it
    /// has drained what was queued.
    pub fn close(&mut self)
        ensures
            final(self).held() == Seq::<SubInfo>::empty(),
            final(self)@ == Map::<Key, Sender<RpcFrame>>::empty(),
            final(self).wf(),
    {
        self.entries.clear();
        assert(self.held() =~= Seq::<SubInfo>::empty());
        assert(self@ =~= Map::<Key, Sender<RpcFrame>>::empty());
    }
}

/// In a table that holds no key twice, what is held is what the view shows:
/// as many registrations as keys, and each of them the entry of its key.
pub proof fn lemma_one_sender_per_key(entries: Seq<SubInfo>)
    requires
        distinct_keys(entries),
    ensures
        table_of(entries).dom().finite(),
        table_of(entries).dom().len() == entries.len(),
        forall|i: int|
            0 <= i < entries.len() ==> table_of(entries).dom().contains(
                (#[trigger] entries[i]).key,
            ) && table_of(entries)[entries[i].key] == entries[i].tx,
    decreases entries.len(),
{
    assert forall|i: int| 0 <= i < entries.len() implies table_of(entries).dom().contains(
        (#[trigger] entries[i]).key,
    ) && table_of(entries)[entries[i].key] == entries[i].tx by {
        assert(is_first_entry(entries, entries[i].key, i));
        lemma_first_entry_at(entries, entries[i].key, i);
    }
    if entries.len() == 0 {
        assert(table_of(entries).dom() =~= Set::<Key>::empty());
    } else {
        let init = entries.drop_last();
        let last = entries.last();
        assert forall|i: int, j: int|
            0 <= i < init.len() && 0 <= j < init.len() && i != j implies (#[trigger] init[i]).key != (
        #[trigger] init[j]).key by {
            assert(init[i] == entries[i]);
            assert(init[j] == entries[j]);
        }
        lemma_one_sender_per_key(init);
        assert forall|k: Key| #[trigger]
            table_of(entries).dom().contains(k) == table_of(init).dom().insert(last.key).contains(
                k,
            ) by {
            if has_entry(entries, k) && k != last.key {
                let c = choose|c: int| 0 <= c < entries.len() && (#[trigger] entries[c]).key == k;
                assert(init[c].key == k);
            }
            if has_entry(init, k) {
                let c = choose|c: int| 0 <= c < init.len() && (#[trigger] init[c]).key == k;
                assert(entries[c].key == k);
            }
            if k == last.key {
                assert(entries[entries.len() - 1].key == k);
            }
        }
        assert(table_of(entries).dom() =~= table_of(init).dom().insert(last.key));
        if has_entry(init, last.key) {
            let c = choose|c: int| 0 <= c < init.len() && (#[trigger] init[c]).key == last.key;
            assert(entries[c].key == entries[entries.len() - 1].key);
        }
    }
}

/// A subscription key has one subscriber at most. After an installation the
/// table holds exactly one registration under the key, the new one, and
/// every other registration it holds was there before under its own key. So
/// the sender that was installed under the key before is held no more: the
/// table has dropped it, and with the last sender of a channel gone its
/// receiver sees the end of its stream.
pub proof fn lemma_install_replaces(
    before: Seq<SubInfo>,
    after: Seq<SubInfo>,
    key: Key,
    tx: Sender<RpcFrame>,
)
    requires
        distinct_keys(after),
        table_of(after) == table_of(before).insert(key, tx),
    ensures
        exists|i: int| 0 <= i < after.len() && (#[trigger] after[i]).key == key,
        forall|i: int|
            0 <= i < after.len() && (#[trigger] after[i]).key == key ==> after[i].tx == tx,
        forall|i: int, j: int|
            0 <= i < after.len() && 0 <= j < after.len() && (#[trigger] after[i]).key == key && (
            #[trigger] after[j]).key == key ==> i == j,
        forall|i: int|
            0 <= i < after.len() && (#[trigger] after[i]).key != key ==> table_of(
                before,
            ).dom().contains(after[i].key) && table_of(before)[after[i].key] == after[i].tx,
{
    lemma_one_sender_per_key(after);
    assert(table_of(after).dom().contains(key));
    assert(has_entry(after, key));
    assert forall|i: int|
        0 <= i < after.len() && (#[trigger] after[i]).key != key implies table_of(
        before,
    ).dom().contains(after[i].key) && table_of(before)[after[i].key] == after[i].tx by {
        assert(table_of(after).dom().contains(after[i].key));
        assert(table_of(after)[after[i].key] == after[i].tx);
    }
}

/// A slow or vanished subscriber costs its own key's frames and nothing else:
/// whatever a delivery for `key` ends in, every registration that the table
/// held under another key is held afterwards, with the same sender, and
/// nothing has come in.
pub proof fn lemma_delivery_is_local(
    before: Seq<SubInfo>,
    after: Seq<SubInfo>,
    key: Key,
    i: int,
)
    requires
        distinct_keys(before),
        distinct_keys(after),
        table_of(after) == table_of(before) || table_of(after) == table_of(before).remove(key),
        0 <= i < before.len(),
        before[i].key != key,
    ensures
        exists|j: int| 0 <= j < after.len() && #[trigger] after[j] == before[i],
        after.len() <= before.len(),
{
    lemma_one_sender_per_key(before);
    lemma_one_sender_per_key(after);
    let k = before[i].key;
    assert(table_of(before).dom().contains(k));
    assert(table_of(after).dom().contains(k));
    assert(has_entry(after, k));
    let j = choose|j: int| 0 <= j < after.len() && (#[trigger] after[j]).key == k;
    assert(table_of(after)[after[j].key] == after[j].tx);
    assert(after[j] == before[i]);
    if table_of(after) == table_of(before).remove(key) {
        if table_of(before).dom().contains(key) {
            assert(table_of(before).dom().remove(key).len() == table_of(before).dom().len() - 1);
            assert(table_of(after).dom() =~= table_of(before).dom().remove(key));
        } else {
            assert(table_of(after).dom() =~= table_of(before).dom());
        }
    }
}

} // verus!
