//! Bounded work queue with claims, retries and a dead-letter state.
//!
//! Items are named `queue-1`, `queue-2`, ... and kept in the string order of their names.
use vstd::prelude::*;
use crate::text::{decimal, lemma_parse_decimal, lemma_seq_lt_order, push_decimal, push_str, seq_lt, str_eq, str_lt};

verus! {

#[derive(Debug, Clone, Copy, PartialEq, Eq, Structural)]
pub enum QueueState {
    Queued,
    Claimed,
    Acknowledged,
    DeadLetter,
}

#[derive(Debug, Clone, Copy, PartialEq, Eq, Structural)]
pub enum QueueError {
    Capacity,
    NotFound,
    InvalidState,
    InvalidRetries,
}

#[derive(Debug, Clone, PartialEq, Eq)]
pub struct QueueItem {
    pub id: String,
    pub payload: Vec<u8>,
    pub attempts: u32,
    pub max_retries: u32,
    pub state: QueueState,
}

pub struct ItemView {
    pub id: Seq<char>,
    pub payload: Seq<u8>,
    pub attempts: u32,
    pub max_retries: u32,
    pub state: QueueState,
}

impl View for QueueItem {
    type V = ItemView;

    open spec fn view(&self) -> ItemView {
        ItemView {
            id: self.id@,
            payload: self.payload@,
            attempts: self.attempts,
            max_retries: self.max_retries,
            state: self.state,
        }
    }
}

/// Most retries an item may be given.
pub const MAX_RETRIES: u32 = 32;

pub open spec fn item_views(v: Seq<QueueItem>) -> Seq<ItemView> {
    v.map_values(|x: QueueItem| x@)
}

/// `queue-<n>`.
pub open spec fn queue_id(n: nat) -> Seq<char> {
    seq!['q', 'u', 'e', 'u', 'e', '-'] + decimal(n)
}

pub open spec fn item_ids(s: Seq<ItemView>) -> Seq<Seq<char>> {
    s.map_values(|x: ItemView| x.id)
}

/// The item named `id`, if there is one.
pub open spec fn item_of(s: Seq<ItemView>, id: Seq<char>) -> Option<ItemView> {
    if item_ids(s).contains(id) {
        Some(s[item_ids(s).index_of(id)])
    } else {
        None
    }
}

pub open spec fn id_ordered(s: Seq<ItemView>) -> bool {
    forall|i: int, j: int| 0 <= i < j < s.len() ==> seq_lt(#[trigger] s[i].id, #[trigger] s[j].id)
}

/// `x` inserted by name.
pub open spec fn insert_by_id(s: Seq<ItemView>, x: ItemView) -> Seq<ItemView>
    decreases s.len(),
{
    if s.len() == 0 || seq_lt(s.last().id, x.id) {
        s.push(x)
    } else {
        insert_by_id(s.drop_last(), x).push(s.last())
    }
}

/// Where a retried item goes: back to the queue, or to the dead letters once its attempts
/// exceed its retries.
pub open spec fn retried(x: ItemView) -> ItemView {
    let attempts = (x.attempts + 1) as u32;
    ItemView {
        attempts,
        state: if attempts > x.max_retries {
            QueueState::DeadLetter
        } else {
            QueueState::Queued
        },
        ..x
    }
}

pub open spec fn items_wf(s: Seq<ItemView>, next_id: nat) -> bool {
    &&& id_ordered(s)
    &&& s.len() == next_id
    &&& forall|i: int|
        0 <= i < s.len() ==> exists|k: nat| 1 <= k <= next_id && (#[trigger] s[i]).id == queue_id(k)
    &&& forall|i: int|
        0 <= i < s.len() ==> (#[trigger] s[i]).max_retries <= MAX_RETRIES && s[i].attempts
            <= s[i].max_retries + 1 && (s[i].state != QueueState::DeadLetter ==> s[i].attempts
            <= s[i].max_retries)
}

proof fn lemma_queue_id_injective(a: nat, b: nat)
    requires
        a <= u64::MAX,
        b <= u64::MAX,
        queue_id(a) == queue_id(b),
    ensures
        a == b,
{
    lemma_parse_decimal(a);
    lemma_parse_decimal(b);
    assert(queue_id(a).skip(6) =~= decimal(a));
    assert(queue_id(b).skip(6) =~= decimal(b));
}

proof fn lemma_item_at(s: Seq<ItemView>, i: int)
    requires
        id_ordered(s),
        0 <= i < s.len(),
    ensures
        item_of(s, s[i].id) == Some(s[i]),
{
    let ids = item_ids(s);
    assert(ids[i] == s[i].id);
    let k = ids.index_of(s[i].id);
    assert(ids[k] == s[k].id);
    if k < i {
        assert(seq_lt(s[k].id, s[i].id));
        lemma_seq_lt_order(s[i].id, s[i].id, s[i].id);
    } else if i < k {
        assert(seq_lt(s[i].id, s[k].id));
        lemma_seq_lt_order(s[i].id, s[i].id, s[i].id);
    }
}

proof fn lemma_item_absent(s: Seq<ItemView>, id: Seq<char>)
    requires
        forall|i: int| 0 <= i < s.len() ==> (#[trigger] s[i]).id != id,
    ensures
        item_of(s, id) is None,
{
    let ids = item_ids(s);
    if ids.contains(id) {
        let k = ids.index_of(id);
        assert(ids[k] == s[k].id);
    }
}

proof fn lemma_insert_by_id(s: Seq<ItemView>, x: ItemView, p: int)
    requires
        id_ordered(s),
        0 <= p <= s.len(),
        forall|j: int| 0 <= j < p ==> seq_lt(#[trigger] s[j].id, x.id),
        forall|j: int| p <= j < s.len() ==> seq_lt(x.id, #[trigger] s[j].id),
    ensures
        insert_by_id(s, x) == s.insert(p, x),
        id_ordered(s.insert(p, x)),
    decreases s.len(),
{
    let r = s.insert(p, x);
    if s.len() == 0 || seq_lt(s.last().id, x.id) {
        if s.len() > 0 && p < s.len() {
            lemma_seq_lt_order(s.last().id, x.id, s.last().id);
        }
        assert(r =~= s.push(x));
    } else {
        let t = s.drop_last();
        assert forall|j: int| p <= j < t.len() implies seq_lt(x.id, #[trigger] t[j].id) by {
            assert(t[j] == s[j]);
        }
        assert forall|j: int| 0 <= j < p implies seq_lt(#[trigger] t[j].id, x.id) by {
            assert(t[j] == s[j]);
        }
        if p == s.len() {
            lemma_seq_lt_order(s.last().id, x.id, s.last().id);
        }
        lemma_insert_by_id(t, x, p);
        assert(r =~= t.insert(p, x).push(s.last()));
    }
    assert forall|a: int, c: int| 0 <= a < c < r.len() implies seq_lt(#[trigger] r[a].id, #[trigger] r[c].id) by {
        if c < p {
            assert(r[a] == s[a] && r[c] == s[c]);
        } else if c == p {
            assert(r[a] == s[a]);
        } else if a < p {
            assert(r[a] == s[a] && r[c] == s[c - 1]);
            lemma_seq_lt_order(r[a].id, x.id, r[c].id);
        } else if a == p {
            assert(r[c] == s[c - 1]);
        } else {
            assert(r[a] == s[a - 1] && r[c] == s[c - 1]);
        }
    }
}

fn copy_item(x: &QueueItem) -> (c: QueueItem)
    ensures
        c@ == x@,
{
    QueueItem {
        id: x.id.clone(),
        payload: x.payload.clone(),
        attempts: x.attempts,
        max_retries: x.max_retries,
        state: x.state,
    }
}

/// Up to `capacity` items, none ever removed.
#[derive(Debug, Clone)]
pub struct Queue {
    items: Vec<QueueItem>,
    capacity: usize,
    next_id: u64,
}

impl Queue {
    /// The items, in the string order of their names.
    pub closed spec fn items(&self) -> Seq<ItemView> {
        item_views(self.items@)
    }

    pub closed spec fn capacity(&self) -> nat {
        self.capacity as nat
    }

    /// How many items were ever enqueued.
    pub closed spec fn enqueued(&self) -> nat {
        self.next_id as nat
    }

    pub closed spec fn wf(&self) -> bool {
        items_wf(self.items(), self.next_id as nat)
    }

    pub fn new(capacity: usize) -> (q: Queue)
        ensures
            q.wf(),
            q.items() == Seq::<ItemView>::empty(),
            q.capacity() == capacity,
            q.enqueued() == 0,
    {
        let q = Queue { items: Vec::new(), capacity, next_id: 0 };
        assert(q.items() =~= Seq::<ItemView>::empty());
        q
    }

    fn find(&self, id: &str) -> (r: Option<usize>)
        requires
            self.wf(),
        ensures
            r matches Some(i) ==> i < self.items().len() && self.items()[i as int].id == id@ && item_of(
                self.items(),
                id@,
            ) == Some(self.items()[i as int]),
            r is None ==> item_of(self.items(), id@) is None,
    {
        let mut i: usize = 0;
        while i < self.items.len()
            invariant
                self.wf(),
                i <= self.items@.len(),
                forall|j: int| 0 <= j < i ==> (#[trigger] self.items()[j]).id != id@,
            decreases self.items@.len() - i,
        {
            if str_eq(self.items[i].id.as_str(), id) {
                proof {
                    lemma_item_at(self.items(), i as int);
                }
                return Some(i);
            }
            i = i + 1;
        }
        proof {
            lemma_item_absent(self.items(), id@);
        }
        None
    }

    /// Adds a queued item named after the next number; refused at capacity or with more
    /// than 32 retries.
    pub fn enqueue(&mut self, payload: Vec<u8>, max_retries: u32) -> (r: Result<QueueItem, QueueError>)
        requires
            old(self).wf(),
        ensures
            final(self).wf(),
            final(self).capacity() == old(self).capacity(),
            old(self).items().len() >= old(self).capacity() ==> r == Err::<QueueItem, _>(
                QueueError::Capacity,
            ),
            old(self).items().len() < old(self).capacity() && max_retries > MAX_RETRIES ==> r == Err::<
                QueueItem,
                _,
            >(QueueError::InvalidRetries),
            r is Err ==> final(self).items() == old(self).items() && final(self).enqueued() == old(
                self,
            ).enqueued(),
            old(self).items().len() < old(self).capacity() && max_retries <= MAX_RETRIES ==> ({
                let x = ItemView {
                    id: queue_id(old(self).enqueued() + 1),
                    payload: payload@,
                    attempts: 0,
                    max_retries,
                    state: QueueState::Queued,
                };
                &&& r matches Ok(item) && item@ == x
                &&& final(self).items() == insert_by_id(old(self).items(), x)
                &&& final(self).enqueued() == old(self).enqueued() + 1
                &&& item_of(old(self).items(), x.id) is None
            }),
    {
        if self.items.len() >= self.capacity {
            return Err(QueueError::Capacity);
        }
        if max_retries > MAX_RETRIES {
            return Err(QueueError::InvalidRetries);
        }
        let ghost before = self.items();
        let ghost old_next = self.next_id as nat;
        self.next_id = self.next_id + 1;
        let mut id = String::new();
        push_str(&mut id, "queue-");
        push_decimal(&mut id, self.next_id);
        proof {
            reveal_strlit("queue-");
            assert(id@ =~= queue_id(self.next_id as nat));
        }
        let item = QueueItem { id, payload, attempts: 0, max_retries, state: QueueState::Queued };
        let ghost x = item@;
        proof {
            assert forall|j: int| 0 <= j < before.len() implies (#[trigger] before[j]).id != x.id by {
                let k = choose|k: nat| 1 <= k <= old_next && before[j].id == queue_id(k);
                if before[j].id == x.id {
                    lemma_queue_id_injective(k, old_next + 1);
                }
            }
            lemma_item_absent(before, x.id);
        }
        let mut p: usize = 0;
        while p < self.items.len() && str_lt(self.items[p].id.as_str(), item.id.as_str())
            invariant
                before == self.items(),
                x == item@,
                p <= before.len(),
                forall|j: int| 0 <= j < p ==> seq_lt(#[trigger] before[j].id, x.id),
            decreases before.len() - p,
        {
            p = p + 1;
        }
        proof {
            assert forall|j: int| p <= j < before.len() implies seq_lt(x.id, #[trigger] before[j].id) by {
                assert(before[j].id != x.id);
                lemma_seq_lt_order(x.id, before[p as int].id, before[j].id);
                lemma_seq_lt_order(before[p as int].id, x.id, before[p as int].id);
                if j > p {
                    assert(seq_lt(before[p as int].id, before[j].id));
                }
            }
            lemma_insert_by_id(before, x, p as int);
        }
        self.items.insert(p, copy_item(&item));
        proof {
            let after = self.items();
            assert(after =~= before.insert(p as int, x));
            let n = self.next_id as nat;
            assert forall|i: int| 0 <= i < after.len() implies exists|k: nat|
                1 <= k <= n && (#[trigger] after[i]).id == queue_id(k) by {
                if i < p {
                    assert(after[i] == before[i]);
                    let k = choose|k: nat| 1 <= k <= old_next && before[i].id == queue_id(k);
                } else if i == p {
                } else {
                    assert(after[i] == before[i - 1]);
                    let k = choose|k: nat| 1 <= k <= old_next && before[i - 1].id == queue_id(k);
                }
            }
            assert forall|i: int| 0 <= i < after.len() implies (#[trigger] after[i]).max_retries
                <= MAX_RETRIES && after[i].attempts <= after[i].max_retries + 1 && (after[i].state
                != QueueState::DeadLetter ==> after[i].attempts <= after[i].max_retries) by {
                if i < p {
                    assert(after[i] == before[i]);
                } else if i > p {
                    assert(after[i] == before[i - 1]);
                }
            }
        }
        Ok(item)
    }

    /// Claims the first queued item, in name order.
    pub fn claim(&mut self) -> (r: Option<QueueItem>)
        requires
            old(self).wf(),
        ensures
            final(self).wf(),
            final(self).capacity() == old(self).capacity(),
            final(self).enqueued() == old(self).enqueued(),
            r is None ==> final(self).items() == old(self).items() && forall|i: int|
                0 <= i < old(self).items().len() ==> (#[trigger] old(self).items()[i]).state
                    != QueueState::Queued,
            r is Some ==> exists|i: int|
                0 <= i < old(self).items().len() && (#[trigger] old(self).items()[i]).state
                    == QueueState::Queued && (forall|j: int|
                    0 <= j < i ==> (#[trigger] old(self).items()[j]).state != QueueState::Queued) && ({
                    let y = ItemView { state: QueueState::Claimed, ..old(self).items()[i] };
                    r matches Some(x) && x@ == y && final(self).items() == old(self).items().update(i, y)
                }),
    {
        let ghost before = self.items();
        let mut i: usize = 0;
        while i < self.items.len() && self.items[i].state != QueueState::Queued
            invariant
                before == self.items(),
                i <= before.len(),
                forall|j: int| 0 <= j < i ==> (#[trigger] before[j]).state != QueueState::Queued,
            decreases before.len() - i,
        {
            i = i + 1;
        }
        if i == self.items.len() {
            return None;
        }
        assert(before[i as int].state == QueueState::Queued);
        let mut x = copy_item(&self.items[i]);
        x.state = QueueState::Claimed;
        let result = copy_item(&x);
        self.settle(i, x);
        proof {
            let y = ItemView { state: QueueState::Claimed, ..before[i as int] };
            assert(result@ == y);
        }
        Some(result)
    }

    fn settle(&mut self, i: usize, x: QueueItem)
        requires
            old(self).wf(),
            i < old(self).items().len(),
            x@.id == old(self).items()[i as int].id,
            x@.max_retries <= MAX_RETRIES,
            x@.attempts <= x@.max_retries + 1,
            x@.state != QueueState::DeadLetter ==> x@.attempts <= x@.max_retries,
        ensures
            final(self).wf(),
            final(self).capacity() == old(self).capacity(),
            final(self).enqueued() == old(self).enqueued(),
            final(self).items() == old(self).items().update(i as int, x@),
    {
        let ghost before = self.items();
        self.items.set(i, x);
        proof {
            let after = self.items();
            assert(after =~= before.update(i as int, x@));
            assert forall|a: int, c: int| 0 <= a < c < after.len() implies seq_lt(
                #[trigger] after[a].id,
                #[trigger] after[c].id,
            ) by {
                assert(after[a].id == before[a].id && after[c].id == before[c].id);
            }
            assert forall|q: int| 0 <= q < after.len() implies exists|k: nat|
                1 <= k <= self.next_id && (#[trigger] after[q]).id == queue_id(k) by {
                assert(after[q].id == before[q].id);
                let k = choose|k: nat| 1 <= k <= self.next_id && before[q].id == queue_id(k);
            }
            assert forall|q: int| 0 <= q < after.len() implies (#[trigger] after[q]).max_retries
                <= MAX_RETRIES && after[q].attempts <= after[q].max_retries + 1 && (after[q].state
                != QueueState::DeadLetter ==> after[q].attempts <= after[q].max_retries) by {
                if q != i {
                    assert(after[q] == before[q]);
                }
            }
        }
    }

    /// Gives a claimed item another attempt, or dead-letters it once its retries are used.
    pub fn retry(&mut self, id: &str) -> (r: Result<QueueItem, QueueError>)
        requires
            old(self).wf(),
        ensures
            final(self).wf(),
            final(self).capacity() == old(self).capacity(),
            final(self).enqueued() == old(self).enqueued(),
            r is Err ==> final(self).items() == old(self).items(),
            match item_of(old(self).items(), id@) {
                None => r == Err::<QueueItem, _>(QueueError::NotFound),
                Some(x) => if x.state != QueueState::Claimed {
                    r == Err::<QueueItem, _>(QueueError::InvalidState)
                } else {
                    (r matches Ok(y) && y@ == retried(x)) && final(self).items() == old(
                        self,
                    ).items().update(item_ids(old(self).items()).index_of(id@), retried(x))
                },
            },
    {
        let i = match self.find(id) {
            None => {
                return Err(QueueError::NotFound);
            },
            Some(i) => i,
        };
        proof {
            let s = self.items();
            let ids = item_ids(s);
            let k = ids.index_of(id@);
            assert(ids[k] == s[k].id);
            lemma_item_at(s, k);
            if k != i {
                if k < i {
                    assert(seq_lt(s[k].id, s[i as int].id));
                } else {
                    assert(seq_lt(s[i as int].id, s[k].id));
                }
                lemma_seq_lt_order(id@, id@, id@);
            }
        }
        if self.items[i].state != QueueState::Claimed {
            return Err(QueueError::InvalidState);
        }
        let mut x = copy_item(&self.items[i]);
        x.attempts = x.attempts + 1;
        if x.attempts > x.max_retries {
            x.state = QueueState::DeadLetter;
        } else {
            x.state = QueueState::Queued;
        }
        let result = copy_item(&x);
        self.settle(i, x);
        Ok(result)
    }

    /// Marks a claimed item done.
    pub fn acknowledge(&mut self, id: &str) -> (r: Result<QueueItem, QueueError>)
        requires
            old(self).wf(),
        ensures
            final(self).wf(),
            final(self).capacity() == old(self).capacity(),
            final(self).enqueued() == old(self).enqueued(),
            r is Err ==> final(self).items() == old(self).items(),
            match item_of(old(self).items(), id@) {
                None => r == Err::<QueueItem, _>(QueueError::NotFound),
                Some(x) => if x.state != QueueState::Claimed {
                    r == Err::<QueueItem, _>(QueueError::InvalidState)
                } else {
                    let y = ItemView { state: QueueState::Acknowledged, ..x };
                    (r matches Ok(z) && z@ == y) && final(self).items() == old(self).items().update(
                        item_ids(old(self).items()).index_of(id@),
                        y,
                    )
                },
            },
    {
        let i = match self.find(id) {
            None => {
                return Err(QueueError::NotFound);
            },
            Some(i) => i,
        };
        proof {
            let s = self.items();
            let ids = item_ids(s);
            let k = ids.index_of(id@);
            assert(ids[k] == s[k].id);
            lemma_item_at(s, k);
            if k != i {
                if k < i {
                    assert(seq_lt(s[k].id, s[i as int].id));
                } else {
                    assert(seq_lt(s[i as int].id, s[k].id));
                }
                lemma_seq_lt_order(id@, id@, id@);
            }
        }
        if self.items[i].state != QueueState::Claimed {
            return Err(QueueError::InvalidState);
        }
        let mut x = copy_item(&self.items[i]);
        x.state = QueueState::Acknowledged;
        let result = copy_item(&x);
        self.settle(i, x);
        Ok(result)
    }

    /// Every item, in name order.
    pub fn snapshot(&self) -> (v: Vec<QueueItem>)
        ensures
            item_views(v@) == self.items(),
    {
        let mut v: Vec<QueueItem> = Vec::new();
        let mut i: usize = 0;
        while i < self.items.len()
            invariant
                i <= self.items@.len(),
                v@.len() == i,
                forall|j: int| 0 <= j < i ==> (#[trigger] v@[j])@ == self.items@[j]@,
            decreases self.items@.len() - i,
        {
            v.push(copy_item(&self.items[i]));
            i = i + 1;
        }
        assert(item_views(v@) =~= self.items());
        v
    }
}

impl Default for Queue {
    fn default() -> (q: Self)
        ensures
            q.wf(),
            q.items() == Seq::<ItemView>::empty(),
            q.capacity() == 1024,
            q.enqueued() == 0,
    {
        Queue::new(1024)
    }
}

/// An item is retried at most its retry count of times before it is dead-lettered: a
/// queued or claimed item has used no more attempts than it has retries.
pub proof fn lemma_retry_bounded(x: ItemView)
    requires
        x.state == QueueState::Claimed,
        x.max_retries <= MAX_RETRIES,
        x.attempts <= x.max_retries,
    ensures
        retried(x).attempts == x.attempts + 1,
        retried(x).state == QueueState::Queued <==> x.attempts < x.max_retries,
        retried(x).state == QueueState::DeadLetter <==> x.attempts == x.max_retries,
{
}

} // verus!
