//! Bounded in-process publish/subscribe channels.
//!
//! Each channel keeps its last `capacity` messages; a subscription reads the messages
//! published after its cursor and moves the cursor past them.
use vstd::prelude::*;
use crate::text::{is_token_text, owned, str_eq, token_text};

verus! {

#[derive(Debug, Clone, Copy, PartialEq, Eq, Structural)]
pub enum PubSubError {
    InvalidName,
    Capacity,
    NotFound,
    DuplicateSubscriber,
}

#[derive(Debug, Clone, PartialEq, Eq)]
pub struct PubSubMessage {
    pub sequence: u64,
    pub channel: String,
    pub payload: Vec<u8>,
}

#[derive(Debug, Clone, PartialEq, Eq)]
pub struct PubSubSubscription {
    pub id: String,
    pub channel: String,
    pub cursor: u64,
}

pub struct MessageView {
    pub sequence: u64,
    pub channel: Seq<char>,
    pub payload: Seq<u8>,
}

impl View for PubSubMessage {
    type V = MessageView;

    open spec fn view(&self) -> MessageView {
        MessageView { sequence: self.sequence, channel: self.channel@, payload: self.payload@ }
    }
}

pub struct SubscriptionView {
    pub id: Seq<char>,
    pub channel: Seq<char>,
    pub cursor: u64,
}

impl View for PubSubSubscription {
    type V = SubscriptionView;

    open spec fn view(&self) -> SubscriptionView {
        SubscriptionView { id: self.id@, channel: self.channel@, cursor: self.cursor }
    }
}

pub struct ChannelView {
    pub name: Seq<char>,
    pub messages: Seq<MessageView>,
}

pub const MAX_NAME_BYTES: usize = 128;

pub open spec fn valid_name(s: Seq<char>) -> bool {
    token_text(s, MAX_NAME_BYTES as nat)
}

pub open spec fn message_views(v: Seq<PubSubMessage>) -> Seq<MessageView> {
    v.map_values(|m: PubSubMessage| m@)
}

pub open spec fn channel_names(cs: Seq<ChannelView>) -> Seq<Seq<char>> {
    cs.map_values(|c: ChannelView| c.name)
}

/// The retained messages of channel `name`, if it exists.
pub open spec fn messages_of(cs: Seq<ChannelView>, name: Seq<char>) -> Option<Seq<MessageView>> {
    if channel_names(cs).contains(name) {
        Some(cs[channel_names(cs).index_of(name)].messages)
    } else {
        None
    }
}

pub open spec fn subscriber_ids(ss: Seq<SubscriptionView>) -> Seq<Seq<char>> {
    ss.map_values(|s: SubscriptionView| s.id)
}

/// The subscription `id`, if it exists.
pub open spec fn subscription_of(ss: Seq<SubscriptionView>, id: Seq<char>) -> Option<SubscriptionView> {
    if subscriber_ids(ss).contains(id) {
        Some(ss[subscriber_ids(ss).index_of(id)])
    } else {
        None
    }
}

/// The messages after `cursor`, in order.
pub open spec fn after_cursor(ms: Seq<MessageView>, cursor: u64) -> Seq<MessageView>
    decreases ms.len(),
{
    if ms.len() == 0 {
        ms
    } else if ms.last().sequence > cursor {
        after_cursor(ms.drop_last(), cursor).push(ms.last())
    } else {
        after_cursor(ms.drop_last(), cursor)
    }
}

/// `m` appended, the oldest dropped first when `capacity` messages are kept already.
pub open spec fn appended(ms: Seq<MessageView>, m: MessageView, capacity: nat) -> Seq<MessageView> {
    if ms.len() >= capacity && ms.len() > 0 {
        ms.drop_first().push(m)
    } else {
        ms.push(m)
    }
}

pub open spec fn unique_channels(cs: Seq<ChannelView>) -> bool {
    forall|i: int, j: int|
        0 <= i < cs.len() && 0 <= j < cs.len() && i != j ==> #[trigger] cs[i].name != #[trigger] cs[j].name
}

pub open spec fn unique_subscribers(ss: Seq<SubscriptionView>) -> bool {
    forall|i: int, j: int|
        0 <= i < ss.len() && 0 <= j < ss.len() && i != j ==> #[trigger] ss[i].id != #[trigger] ss[j].id
}

proof fn lemma_channel_at(cs: Seq<ChannelView>, i: int)
    requires
        unique_channels(cs),
        0 <= i < cs.len(),
    ensures
        messages_of(cs, cs[i].name) == Some(cs[i].messages),
{
    let ids = channel_names(cs);
    assert(ids[i] == cs[i].name);
    let k = ids.index_of(cs[i].name);
    assert(ids[k] == cs[k].name);
}

proof fn lemma_channel_absent(cs: Seq<ChannelView>, name: Seq<char>)
    requires
        forall|i: int| 0 <= i < cs.len() ==> (#[trigger] cs[i]).name != name,
    ensures
        messages_of(cs, name) is None,
{
    let ids = channel_names(cs);
    if ids.contains(name) {
        let k = ids.index_of(name);
        assert(ids[k] == cs[k].name);
    }
}

/// Entries that keep their names keep their lookups, but for the one at `i`.
proof fn lemma_channels_kept(before: Seq<ChannelView>, after: Seq<ChannelView>, i: int)
    requires
        unique_channels(before),
        unique_channels(after),
        0 <= i < after.len(),
        after.len() == before.len() || (after.len() == before.len() + 1 && i == before.len()),
        forall|j: int| 0 <= j < before.len() && j != i ==> after[j] == before[j],
        i < before.len() ==> after[i].name == before[i].name,
    ensures
        messages_of(after, after[i].name) == Some(after[i].messages),
        forall|k: Seq<char>| k != after[i].name ==> #[trigger] messages_of(after, k) == messages_of(before, k),
{
    lemma_channel_at(after, i);
    assert forall|k: Seq<char>| k != after[i].name implies #[trigger] messages_of(after, k) == messages_of(
        before,
        k,
    ) by {
        let ids = channel_names(after);
        if ids.contains(k) {
            let j = ids.index_of(k);
            assert(ids[j] == after[j].name);
            lemma_channel_at(after, j);
            lemma_channel_at(before, j);
        } else {
            assert forall|j: int| 0 <= j < before.len() implies (#[trigger] before[j]).name != k by {
                assert(ids[j] == after[j].name);
            }
            lemma_channel_absent(before, k);
        }
    }
}

proof fn lemma_subscriber_at(ss: Seq<SubscriptionView>, i: int)
    requires
        unique_subscribers(ss),
        0 <= i < ss.len(),
    ensures
        subscription_of(ss, ss[i].id) == Some(ss[i]),
{
    let ids = subscriber_ids(ss);
    assert(ids[i] == ss[i].id);
    let k = ids.index_of(ss[i].id);
    assert(ids[k] == ss[k].id);
}

proof fn lemma_subscriber_absent(ss: Seq<SubscriptionView>, id: Seq<char>)
    requires
        forall|i: int| 0 <= i < ss.len() ==> (#[trigger] ss[i]).id != id,
    ensures
        subscription_of(ss, id) is None,
{
    let ids = subscriber_ids(ss);
    if ids.contains(id) {
        let k = ids.index_of(id);
        assert(ids[k] == ss[k].id);
    }
}

/// After `after` differs from `before` only around position `i` (replaced, removed or
/// appended there), every other id keeps its subscription.
proof fn lemma_subscribers_kept(before: Seq<SubscriptionView>, after: Seq<SubscriptionView>, id: Seq<char>)
    requires
        unique_subscribers(before),
        unique_subscribers(after),
        forall|j: int| 0 <= j < after.len() && after[j].id != id ==> before.contains(#[trigger] after[j]),
        forall|j: int| 0 <= j < before.len() && before[j].id != id ==> after.contains(#[trigger] before[j]),
    ensures
        forall|k: Seq<char>| k != id ==> #[trigger] subscription_of(after, k) == subscription_of(before, k),
{
    assert forall|k: Seq<char>| k != id implies #[trigger] subscription_of(after, k) == subscription_of(
        before,
        k,
    ) by {
        let ids = subscriber_ids(after);
        if ids.contains(k) {
            let j = ids.index_of(k);
            assert(ids[j] == after[j].id);
            lemma_subscriber_at(after, j);
            assert(before.contains(after[j]));
            let b = choose|b: int| 0 <= b < before.len() && before[b] == after[j];
            lemma_subscriber_at(before, b);
        } else {
            assert forall|j: int| 0 <= j < before.len() implies (#[trigger] before[j]).id != k by {
                if before[j].id == k {
                    assert(after.contains(before[j]));
                    let a = choose|a: int| 0 <= a < after.len() && after[a] == before[j];
                    assert(ids[a] == after[a].id);
                }
            }
            lemma_subscriber_absent(before, k);
        }
    }
}

#[derive(Debug, Clone)]
struct Channel {
    name: String,
    messages: Vec<PubSubMessage>,
}

spec fn channel_view(c: Channel) -> ChannelView {
    ChannelView { name: c.name@, messages: message_views(c.messages@) }
}

fn copy_message(m: &PubSubMessage) -> (c: PubSubMessage)
    ensures
        c@ == m@,
{
    PubSubMessage { sequence: m.sequence, channel: m.channel.clone(), payload: m.payload.clone() }
}

fn copy_subscription(s: &PubSubSubscription) -> (c: PubSubSubscription)
    ensures
        c@ == s@,
{
    PubSubSubscription { id: s.id.clone(), channel: s.channel.clone(), cursor: s.cursor }
}

/// Named channels and their subscriptions.
#[derive(Debug, Clone)]
pub struct PubSub {
    channels: Vec<Channel>,
    subscribers: Vec<PubSubSubscription>,
    capacity: usize,
    next_sequence: u64,
}

impl PubSub {
    pub closed spec fn channels(&self) -> Seq<ChannelView> {
        self.channels@.map_values(|c: Channel| channel_view(c))
    }

    pub closed spec fn subscriptions(&self) -> Seq<SubscriptionView> {
        self.subscribers@.map_values(|s: PubSubSubscription| s@)
    }

    pub closed spec fn capacity(&self) -> nat {
        self.capacity as nat
    }

    /// The sequence number of the last message published (0 before the first).
    pub closed spec fn last_sequence(&self) -> u64 {
        self.next_sequence
    }

    pub closed spec fn wf(&self) -> bool {
        &&& unique_channels(self.channels())
        &&& unique_subscribers(self.subscriptions())
    }

    /// No channel, no subscription; each channel will keep up to `capacity` messages.
    pub fn new(capacity: usize) -> (p: PubSub)
        ensures
            p.wf(),
            p.channels() == Seq::<ChannelView>::empty(),
            p.subscriptions() == Seq::<SubscriptionView>::empty(),
            p.capacity() == capacity,
            p.last_sequence() == 0,
    {
        let p = PubSub { channels: Vec::new(), subscribers: Vec::new(), capacity, next_sequence: 0 };
        assert(p.channels() =~= Seq::<ChannelView>::empty());
        assert(p.subscriptions() =~= Seq::<SubscriptionView>::empty());
        p
    }

    fn find_channel(&self, name: &str) -> (r: Option<usize>)
        requires
            self.wf(),
        ensures
            r matches Some(i) ==> i < self.channels().len() && self.channels()[i as int].name == name@
                && messages_of(self.channels(), name@) == Some(self.channels()[i as int].messages),
            r is None ==> messages_of(self.channels(), name@) is None,
    {
        let mut i: usize = 0;
        while i < self.channels.len()
            invariant
                self.wf(),
                i <= self.channels@.len(),
                forall|j: int| 0 <= j < i ==> (#[trigger] self.channels()[j]).name != name@,
            decreases self.channels@.len() - i,
        {
            if str_eq(self.channels[i].name.as_str(), name) {
                proof {
                    lemma_channel_at(self.channels(), i as int);
                }
                return Some(i);
            }
            i = i + 1;
        }
        proof {
            lemma_channel_absent(self.channels(), name@);
        }
        None
    }

    fn find_subscriber(&self, id: &str) -> (r: Option<usize>)
        requires
            self.wf(),
        ensures
            r matches Some(i) ==> i < self.subscriptions().len() && self.subscriptions()[i as int].id
                == id@ && subscription_of(self.subscriptions(), id@) == Some(
                self.subscriptions()[i as int],
            ),
            r is None ==> subscription_of(self.subscriptions(), id@) is None,
    {
        let mut i: usize = 0;
        while i < self.subscribers.len()
            invariant
                self.wf(),
                i <= self.subscribers@.len(),
                forall|j: int| 0 <= j < i ==> (#[trigger] self.subscriptions()[j]).id != id@,
            decreases self.subscribers@.len() - i,
        {
            if str_eq(self.subscribers[i].id.as_str(), id) {
                proof {
                    lemma_subscriber_at(self.subscriptions(), i as int);
                }
                return Some(i);
            }
            i = i + 1;
        }
        proof {
            lemma_subscriber_absent(self.subscriptions(), id@);
        }
        None
    }

    /// Makes sure channel `name` exists; an existing channel keeps its messages.
    pub fn create_channel(&mut self, name: &str) -> (r: Result<(), PubSubError>)
        requires
            old(self).wf(),
        ensures
            final(self).wf(),
            final(self).subscriptions() == old(self).subscriptions(),
            final(self).capacity() == old(self).capacity(),
            final(self).last_sequence() == old(self).last_sequence(),
            !valid_name(name@) ==> r == Err::<(), _>(PubSubError::InvalidName) && final(self).channels()
                == old(self).channels(),
            valid_name(name@) ==> r is Ok && messages_of(final(self).channels(), name@) == Some(
                match messages_of(old(self).channels(), name@) {
                    Some(ms) => ms,
                    None => Seq::<MessageView>::empty(),
                },
            ) && forall|k: Seq<char>|
                k != name@ ==> #[trigger] messages_of(final(self).channels(), k) == messages_of(
                    old(self).channels(),
                    k,
                ),
    {
        if !is_token_text(name, MAX_NAME_BYTES) {
            return Err(PubSubError::InvalidName);
        }
        match self.find_channel(name) {
            Some(_) => {},
            None => {
                let ghost before = self.channels();
                let empty: Vec<PubSubMessage> = Vec::new();
                assert(message_views(empty@) =~= Seq::<MessageView>::empty());
                self.channels.push(Channel { name: owned(name), messages: empty });
                proof {
                    let after = self.channels();
                    let c = ChannelView { name: name@, messages: Seq::empty() };
                    assert(after =~= before.push(c));
                    assert forall|a: int, b: int|
                        0 <= a < after.len() && 0 <= b < after.len() && a != b implies #[trigger] after[a].name
                        != #[trigger] after[b].name by {
                        if a < before.len() {
                            lemma_channel_at(before, a);
                        }
                        if b < before.len() {
                            lemma_channel_at(before, b);
                        }
                    }
                    lemma_channels_kept(before, after, before.len() as int);
                }
            },
        }
        Ok(())
    }

    /// Subscribes `id` to `channel`, starting after the last message published so far.
    pub fn subscribe(&mut self, id: &str, channel: &str) -> (r: Result<PubSubSubscription, PubSubError>)
        requires
            old(self).wf(),
        ensures
            final(self).wf(),
            final(self).channels() == old(self).channels(),
            final(self).capacity() == old(self).capacity(),
            final(self).last_sequence() == old(self).last_sequence(),
            !valid_name(id@) || !valid_name(channel@) ==> r == Err::<PubSubSubscription, _>(
                PubSubError::InvalidName,
            ),
            valid_name(id@) && valid_name(channel@) && messages_of(old(self).channels(), channel@) is None
                ==> r == Err::<PubSubSubscription, _>(PubSubError::NotFound),
            valid_name(id@) && valid_name(channel@) && messages_of(old(self).channels(), channel@) is Some
                && subscription_of(old(self).subscriptions(), id@) is Some ==> r == Err::<
                PubSubSubscription,
                _,
            >(PubSubError::DuplicateSubscriber),
            r is Err ==> final(self).subscriptions() == old(self).subscriptions(),
            valid_name(id@) && valid_name(channel@) && messages_of(old(self).channels(), channel@) is Some
                && subscription_of(old(self).subscriptions(), id@) is None ==> ({
                let s = SubscriptionView { id: id@, channel: channel@, cursor: old(self).last_sequence() };
                (r matches Ok(x) && x@ == s) && final(self).subscriptions() == old(self).subscriptions().push(s)
                    && subscription_of(final(self).subscriptions(), id@) == Some(s)
            }),
    {
        if !is_token_text(id, MAX_NAME_BYTES) || !is_token_text(channel, MAX_NAME_BYTES) {
            return Err(PubSubError::InvalidName);
        }
        if self.find_channel(channel).is_none() {
            return Err(PubSubError::NotFound);
        }
        if self.find_subscriber(id).is_some() {
            return Err(PubSubError::DuplicateSubscriber);
        }
        let s = PubSubSubscription { id: owned(id), channel: owned(channel), cursor: self.next_sequence };
        let ghost before = self.subscriptions();
        self.subscribers.push(copy_subscription(&s));
        proof {
            let after = self.subscriptions();
            assert(after =~= before.push(s@));
            assert forall|a: int, b: int|
                0 <= a < after.len() && 0 <= b < after.len() && a != b implies #[trigger] after[a].id
                != #[trigger] after[b].id by {
                if a < before.len() {
                    lemma_subscriber_at(before, a);
                }
                if b < before.len() {
                    lemma_subscriber_at(before, b);
                }
            }
            lemma_subscriber_at(after, before.len() as int);
        }
        Ok(s)
    }

    /// Ends subscription `id`.
    pub fn unsubscribe(&mut self, id: &str) -> (r: Result<(), PubSubError>)
        requires
            old(self).wf(),
        ensures
            final(self).wf(),
            final(self).channels() == old(self).channels(),
            final(self).capacity() == old(self).capacity(),
            final(self).last_sequence() == old(self).last_sequence(),
            subscription_of(old(self).subscriptions(), id@) is None ==> r == Err::<(), _>(
                PubSubError::NotFound,
            ) && final(self).subscriptions() == old(self).subscriptions(),
            subscription_of(old(self).subscriptions(), id@) is Some ==> r is Ok && subscription_of(
                final(self).subscriptions(),
                id@,
            ) is None && forall|k: Seq<char>|
                k != id@ ==> #[trigger] subscription_of(final(self).subscriptions(), k)
                    == subscription_of(old(self).subscriptions(), k),
    {
        let i = match self.find_subscriber(id) {
            None => {
                return Err(PubSubError::NotFound);
            },
            Some(i) => i,
        };
        let ghost before = self.subscriptions();
        self.subscribers.remove(i);
        proof {
            let after = self.subscriptions();
            assert(after =~= before.remove(i as int));
            assert forall|a: int, b: int|
                0 <= a < after.len() && 0 <= b < after.len() && a != b implies #[trigger] after[a].id
                != #[trigger] after[b].id by {
                let a0 = if a < i { a } else { a + 1 };
                let b0 = if b < i { b } else { b + 1 };
                assert(after[a] == before[a0] && after[b] == before[b0]);
            }
            assert forall|j: int| 0 <= j < after.len() implies (#[trigger] after[j]).id != id@ by {
                let j0 = if j < i { j } else { j + 1 };
                assert(after[j] == before[j0]);
                assert(before[i as int].id == id@);
            }
            lemma_subscriber_absent(after, id@);
            assert forall|j: int| 0 <= j < after.len() && after[j].id != id@ implies before.contains(
                #[trigger] after[j],
            ) by {
                let j0 = if j < i { j } else { j + 1 };
                assert(after[j] == before[j0]);
            }
            assert forall|j: int| 0 <= j < before.len() && before[j].id != id@ implies after.contains(
                #[trigger] before[j],
            ) by {
                if j < i {
                    assert(after[j] == before[j]);
                } else {
                    assert(j != i);
                    assert(after[j - 1] == before[j]);
                }
            }
            lemma_subscribers_kept(before, after, id@);
        }
        Ok(())
    }

    /// Publishes `payload` on `channel` as the next sequence number; the channel keeps its
    /// last `capacity` messages.
    pub fn publish(&mut self, channel: &str, payload: Vec<u8>) -> (r: Result<PubSubMessage, PubSubError>)
        requires
            old(self).wf(),
            old(self).last_sequence() < u64::MAX,
        ensures
            final(self).wf(),
            final(self).subscriptions() == old(self).subscriptions(),
            final(self).capacity() == old(self).capacity(),
            !valid_name(channel@) ==> r == Err::<PubSubMessage, _>(PubSubError::InvalidName),
            valid_name(channel@) && messages_of(old(self).channels(), channel@) is None ==> r == Err::<
                PubSubMessage,
                _,
            >(PubSubError::NotFound),
            valid_name(channel@) && messages_of(old(self).channels(), channel@) is Some && old(self).capacity() == 0 ==> r == Err::<PubSubMessage, _>(PubSubError::Capacity),
            r is Err ==> final(self).channels() == old(self).channels() && final(self).last_sequence()
                == old(self).last_sequence(),
            valid_name(channel@) && messages_of(old(self).channels(), channel@) is Some && old(self).capacity() > 0 ==> ({
                let m = MessageView {
                    sequence: (old(self).last_sequence() + 1) as u64,
                    channel: channel@,
                    payload: payload@,
                };
                &&& r matches Ok(x) && x@ == m
                &&& final(self).last_sequence() == m.sequence
                &&& messages_of(final(self).channels(), channel@) == Some(
                    appended(
                        messages_of(old(self).channels(), channel@).unwrap(),
                        m,
                        old(self).capacity(),
                    ),
                )
                &&& forall|k: Seq<char>|
                    k != channel@ ==> #[trigger] messages_of(final(self).channels(), k)
                        == messages_of(old(self).channels(), k)
            }),
    {
        if !is_token_text(channel, MAX_NAME_BYTES) {
            return Err(PubSubError::InvalidName);
        }
        let i = match self.find_channel(channel) {
            None => {
                return Err(PubSubError::NotFound);
            },
            Some(i) => i,
        };
        if self.capacity == 0 {
            return Err(PubSubError::Capacity);
        }
        self.next_sequence = self.next_sequence + 1;
        let msg = PubSubMessage { sequence: self.next_sequence, channel: owned(channel), payload };
        let ghost before = self.channels();
        let ghost ms = before[i as int].messages;
        let mut messages = Vec::new();
        std::mem::swap(&mut messages, &mut self.channels[i].messages);
        proof {
            assert(message_views(messages@) == ms);
        }
        if messages.len() >= self.capacity {
            messages.remove(0);
        }
        messages.push(copy_message(&msg));
        proof {
            let expect = appended(ms, msg@, self.capacity as nat);
            assert(message_views(messages@) =~= expect);
        }
        self.channels[i].messages = messages;
        proof {
            let after = self.channels();
            assert(after =~= before.update(
                i as int,
                ChannelView { name: channel@, messages: appended(ms, msg@, self.capacity as nat) },
            ));
            assert forall|a: int, b: int|
                0 <= a < after.len() && 0 <= b < after.len() && a != b implies #[trigger] after[a].name
                != #[trigger] after[b].name by {
                assert(after[a].name == before[a].name && after[b].name == before[b].name);
            }
            lemma_channels_kept(before, after, i as int);
        }
        Ok(msg)
    }

    /// The messages of the subscription's channel published after its cursor, oldest
    /// first; the cursor moves past the last of them.
    pub fn poll(&mut self, id: &str) -> (r: Result<Vec<PubSubMessage>, PubSubError>)
        requires
            old(self).wf(),
        ensures
            final(self).wf(),
            final(self).channels() == old(self).channels(),
            final(self).capacity() == old(self).capacity(),
            final(self).last_sequence() == old(self).last_sequence(),
            match subscription_of(old(self).subscriptions(), id@) {
                None => r == Err::<Vec<PubSubMessage>, _>(PubSubError::NotFound) && final(self).subscriptions() == old(self).subscriptions(),
                Some(s) => match messages_of(old(self).channels(), s.channel) {
                    None => r == Err::<Vec<PubSubMessage>, _>(PubSubError::NotFound) && final(self).subscriptions() == old(self).subscriptions(),
                    Some(ms) => {
                        let out = after_cursor(ms, s.cursor);
                        &&& r matches Ok(v) && message_views(v@) == out
                        &&& subscription_of(final(self).subscriptions(), id@) == Some(
                            SubscriptionView {
                                cursor: if out.len() > 0 {
                                    out.last().sequence
                                } else {
                                    s.cursor
                                },
                                ..s
                            },
                        )
                        &&& forall|k: Seq<char>|
                            k != id@ ==> #[trigger] subscription_of(final(self).subscriptions(), k)
                                == subscription_of(old(self).subscriptions(), k)
                    },
                },
            },
    {
        let i = match self.find_subscriber(id) {
            None => {
                return Err(PubSubError::NotFound);
            },
            Some(i) => i,
        };
        let c = match self.find_channel(self.subscribers[i].channel.as_str()) {
            None => {
                return Err(PubSubError::NotFound);
            },
            Some(c) => c,
        };
        let cursor = self.subscribers[i].cursor;
        let ghost ms = self.channels()[c as int].messages;
        let msgs = &self.channels[c].messages;
        let mut out: Vec<PubSubMessage> = Vec::new();
        let mut k: usize = 0;
        while k < msgs.len()
            invariant
                ms == message_views(msgs@),
                k <= ms.len(),
                message_views(out@) == after_cursor(ms.take(k as int), cursor),
            decreases ms.len() - k,
        {
            proof {
                assert(ms.take(k + 1).drop_last() =~= ms.take(k as int));
                assert(ms.take(k + 1).last() == msgs@[k as int]@);
            }
            if msgs[k].sequence > cursor {
                let ghost before = out@;
                out.push(copy_message(&msgs[k]));
                assert(message_views(out@) =~= message_views(before).push(msgs@[k as int]@));
            }
            k = k + 1;
        }
        assert(ms.take(ms.len() as int) =~= ms);
        let n = out.len();
        if n > 0 {
            let ghost before = self.subscriptions();
            let last = out[n - 1].sequence;
            let mut s = copy_subscription(&self.subscribers[i]);
            s.cursor = last;
            self.subscribers.set(i, s);
            proof {
                let after = self.subscriptions();
                assert(after =~= before.update(i as int, SubscriptionView { cursor: last, ..before[i as int] }));
                assert forall|a: int, b: int|
                    0 <= a < after.len() && 0 <= b < after.len() && a != b implies #[trigger] after[a].id
                    != #[trigger] after[b].id by {
                    assert(after[a].id == before[a].id && after[b].id == before[b].id);
                }
                lemma_subscriber_at(after, i as int);
                assert forall|j: int| 0 <= j < after.len() && after[j].id != id@ implies before.contains(
                    #[trigger] after[j],
                ) by {
                    assert(j != i);
                    assert(after[j] == before[j]);
                }
                assert forall|j: int| 0 <= j < before.len() && before[j].id != id@ implies after.contains(
                    #[trigger] before[j],
                ) by {
                    assert(j != i);
                    assert(after[j] == before[j]);
                }
                lemma_subscribers_kept(before, after, id@);
            }
        }
        Ok(out)
    }
}

impl Default for PubSub {
    fn default() -> (p: Self)
        ensures
            p.wf(),
            p.channels() == Seq::<ChannelView>::empty(),
            p.subscriptions() == Seq::<SubscriptionView>::empty(),
            p.capacity() == 1024,
            p.last_sequence() == 0,
    {
        PubSub::new(1024)
    }
}

} // verus!
