//! The queue layer: a fan-out publisher and the four ways of consuming what
//! it publishes. Every queue here is a plain value with one owner; a poll
//! never blocks and says "not ready" with `None`.
use crate::error::MeshError;
use crate::messages::QueueMessage;
use vstd::prelude::*;
use vstd::slice::slice_to_vec;
use vstd::std_specs::cmp::PartialEqSpec;

verus! {

/// A sink for payload bytes that arrive from the network. Every input queue
/// that is fed by the transport implements it.
pub trait PushByteData: Send {
    /// What one push does to a sink: `post` is `pre` after it took `payload`.
    spec fn pushed(pre: &Self, payload: Seq<u8>, post: &Self) -> bool;

    /// Hands one payload to the sink.
    fn push_data(&mut self, v: &[u8])
        ensures
            Self::pushed(old(self), v@, final(self)),
    ;
}

// ---------------------------------------------------------------------------
// Last value
// ---------------------------------------------------------------------------
/// Keeps only the item pushed last. A poll takes the item: a second poll with
/// no push in between finds nothing.
pub struct LastValueScalarInputQueue<T> {
    channel_id: String,
    service: String,
    value: Option<T>,
}

/// The last-value queue, by its short name.
pub type LastValueQueue<T> = LastValueScalarInputQueue<T>;

impl<T> LastValueScalarInputQueue<T> {
    /// The name of the channel that feeds the queue.
    pub closed spec fn channel_name(&self) -> Seq<char> {
        self.channel_id@
    }

    /// The name of the service that the queue belongs to.
    pub closed spec fn service_name(&self) -> Seq<char> {
        self.service@
    }

    /// Whether this queue has the channel and the service of `other`.
    pub open spec fn named_as(&self, other: &Self) -> bool {
        self.channel_name() == other.channel_name() && self.service_name() == other.service_name()
    }

    /// The name of the channel that feeds the queue.
    pub fn channel_id(&self) -> (r: &str)
        ensures
            r@ == self.channel_name(),
    {
        self.channel_id.as_str()
    }

    /// The name of the service that the queue belongs to.
    pub fn service(&self) -> (r: &str)
        ensures
            r@ == self.service_name(),
    {
        self.service.as_str()
    }

    /// The item that the next poll returns, if any.
    pub closed spec fn pending(&self) -> Option<T> {
        self.value
    }

    /// A queue for a channel and a service, with nothing pending.
    pub fn new(channel_id: String, service: String) -> (q: Self)
        ensures
            q.channel_name() == channel_id@,
            q.service_name() == service@,
            q.pending().is_none(),
    {
        LastValueScalarInputQueue { channel_id, service, value: None }
    }

    /// Stores `item` in place of whatever was pending.
    pub fn push(&mut self, item: T)
        ensures
            final(self).pending() == Some(item),
            final(self).named_as(old(self)),
    {
        self.value = Some(item);
    }

    /// Takes what a decoder made of a payload: a value is stored in place of
    /// whatever was pending; a payload that was no value of the type is not
    /// stored and comes back as an error.
    pub fn push_decoded(&mut self, decoded: Option<T>) -> (r: Result<(), MeshError>)
        ensures
            match decoded {
                Some(v) => r is Ok && final(self).pending() == Some(v),
                None => r == Err::<(), MeshError>(MeshError::BinCodeSerializationError)
                    && final(self).pending() == old(self).pending(),
            },
            final(self).named_as(old(self)),
    {
        match decoded {
            Some(v) => {
                self.push(v);
                Ok(())
            },
            None => Err(MeshError::BinCodeSerializationError),
        }
    }

    /// Takes the pending item, if there is one.
    pub fn poll(&mut self) -> (r: Option<T>)
        ensures
            r == old(self).pending(),
            final(self).pending().is_none(),
            final(self).named_as(old(self)),
    {
        self.value.take()
    }

    /// Whether a poll would return an item.
    pub fn is_ready(&self) -> (r: bool)
        ensures
            r == self.pending().is_some(),
    {
        self.value.is_some()
    }
}

/// What is pending after the items of `pushes` were pushed, in order, on a
/// queue that held `start`.
pub open spec fn last_value_after<T>(start: Option<T>, pushes: Seq<T>) -> Option<T> {
    if pushes.len() == 0 {
        start
    } else {
        Some(pushes.last())
    }
}

/// Pushes every item of `items`, in order.
pub fn last_value_push_all<T: Copy>(q: &mut LastValueScalarInputQueue<T>, items: &[T])
    ensures
        final(q).pending() == last_value_after(old(q).pending(), items@),
        final(q).named_as(old(q)),
{
    let mut i: usize = 0;
    while i < items.len()
        invariant
            i <= items.len(),
            q.pending() == last_value_after(old(q).pending(), items@.take(i as int)),
            q.named_as(old(q)),
        decreases items.len() - i,
    {
        q.push(items[i]);
        assert(items@.take(i + 1).last() == items@[i as int]);
        i += 1;
    }
    assert(items@.take(i as int) =~= items@);
}

// ---------------------------------------------------------------------------
// Burst
// ---------------------------------------------------------------------------
/// Collects everything pushed since the last poll, in order of arrival.
pub struct BurstScalarInputQueue<T> {
    channel_id: String,
    service: String,
    values: Vec<T>,
}

/// The burst queue, by its short name.
pub type BurstQueue<T> = BurstScalarInputQueue<T>;

impl<T> View for BurstScalarInputQueue<T> {
    type V = Seq<T>;

    /// The items buffered, oldest first.
    closed spec fn view(&self) -> Seq<T> {
        self.values@
    }
}

impl<T> BurstScalarInputQueue<T> {
    /// The name of the channel that feeds the queue.
    pub closed spec fn channel_name(&self) -> Seq<char> {
        self.channel_id@
    }

    /// The name of the service that the queue belongs to.
    pub closed spec fn service_name(&self) -> Seq<char> {
        self.service@
    }

    /// Whether this queue has the channel and the service of `other`.
    pub open spec fn named_as(&self, other: &Self) -> bool {
        self.channel_name() == other.channel_name() && self.service_name() == other.service_name()
    }

    /// The name of the channel that feeds the queue.
    pub fn channel_id(&self) -> (r: &str)
        ensures
            r@ == self.channel_name(),
    {
        self.channel_id.as_str()
    }

    /// The name of the service that the queue belongs to.
    pub fn service(&self) -> (r: &str)
        ensures
            r@ == self.service_name(),
    {
        self.service.as_str()
    }

    /// A queue for a channel and a service, with nothing buffered.
    pub fn new(channel_id: String, service: String) -> (q: Self)
        ensures
            q.channel_name() == channel_id@,
            q.service_name() == service@,
            q@ == Seq::<T>::empty(),
    {
        BurstScalarInputQueue { channel_id, service, values: Vec::new() }
    }

    /// Appends `item` to the buffer.
    pub fn push(&mut self, item: T)
        ensures
            final(self)@ == old(self)@.push(item),
            final(self).named_as(old(self)),
    {
        self.values.push(item);
    }

    /// Takes what a decoder made of a payload: a value is appended to the
    /// buffer; a payload that was no value of the type is not appended and
    /// comes back as an error.
    pub fn push_decoded(&mut self, decoded: Option<T>) -> (r: Result<(), MeshError>)
        ensures
            match decoded {
                Some(v) => r is Ok && final(self)@ == old(self)@.push(v),
                None => r == Err::<(), MeshError>(MeshError::BinCodeSerializationError)
                    && final(self)@ == old(self)@,
            },
            final(self).named_as(old(self)),
    {
        match decoded {
            Some(v) => {
                self.push(v);
                Ok(())
            },
            None => Err(MeshError::BinCodeSerializationError),
        }
    }

    /// Takes everything buffered, oldest first; the buffer is empty afterwards.
    pub fn poll(&mut self) -> (r: Vec<T>)
        ensures
            r@ == old(self)@,
            final(self)@ == Seq::<T>::empty(),
            final(self).named_as(old(self)),
    {
        let mut out: Vec<T> = Vec::new();
        core::mem::swap(&mut out, &mut self.values);
        out
    }

    /// How many items are buffered.
    pub fn len(&self) -> (n: usize)
        ensures
            n == self@.len(),
    {
        self.values.len()
    }
}

// ---------------------------------------------------------------------------
// Set
// ---------------------------------------------------------------------------
/// Whether `x` equals some item of `s`.
pub open spec fn is_member<T: PartialEq>(s: Seq<T>, x: T) -> bool {
    exists|i: int| 0 <= i < s.len() && (#[trigger] s[i]).eq_spec(&x)
}

/// Whether no item of `s` equals an earlier one.
pub open spec fn all_distinct<T: PartialEq>(s: Seq<T>) -> bool {
    forall|i: int, j: int|
        #![trigger s[i], s[j]]
        0 <= i < j < s.len() ==> !s[i].eq_spec(&s[j])
}

/// The items seen once `x` arrives after `seen`: `x` is added at the end
/// unless it was seen before.
pub open spec fn set_push<T: PartialEq>(seen: Seq<T>, x: T) -> Seq<T> {
    if is_member(seen, x) {
        seen
    } else {
        seen.push(x)
    }
}

/// The items seen once the items of `items` arrived, in order, after `seen`.
pub open spec fn set_push_seq<T: PartialEq>(seen: Seq<T>, items: Seq<T>) -> Seq<T>
    decreases items.len(),
{
    if items.len() == 0 {
        seen
    } else {
        set_push(set_push_seq(seen, items.drop_last()), items.last())
    }
}

/// The items of `s` without repetitions, each at the place of its first
/// occurrence: what a queue that had seen nothing has seen after `s`.
pub open spec fn first_occurrences<T: PartialEq>(s: Seq<T>) -> Seq<T> {
    set_push_seq(Seq::empty(), s)
}

/// Delivers each distinct item once, in the order in which the items first
/// arrived. The set of items seen never shrinks.
pub struct SetInputQueue<T> {
    seen: Vec<T>,
    delivered: usize,
}

impl<T: PartialEq + Copy> SetInputQueue<T> {
    /// Every distinct item that ever arrived, in order of first arrival.
    pub closed spec fn seen(&self) -> Seq<T> {
        self.seen@
    }

    /// How many of the items seen were handed out by `poll`.
    pub closed spec fn delivered(&self) -> nat {
        self.delivered as nat
    }

    /// The items that `poll` has yet to hand out, next first.
    pub open spec fn pending(&self) -> Seq<T> {
        self.seen().skip(self.delivered() as int)
    }

    /// The invariant of the queue: nothing was seen twice, and no more was
    /// delivered than was seen.
    pub open spec fn wf(&self) -> bool {
        &&& all_distinct(self.seen())
        &&& self.delivered() <= self.seen().len()
    }

    /// A queue that has seen nothing.
    pub fn new() -> (q: Self)
        ensures
            q.wf(),
            q.seen() == Seq::<T>::empty(),
            q.delivered() == 0,
    {
        SetInputQueue { seen: Vec::new(), delivered: 0 }
    }

    /// Takes in `item`: nothing happens if it was seen before, else it is the
    /// next item to be delivered after those pending. Returns whether it was
    /// new.
    pub fn push(&mut self, item: T) -> (fresh: bool)
        requires
            old(self).wf(),
            T::obeys_eq_spec(),
        ensures
            final(self).wf(),
            fresh == !is_member(old(self).seen(), item),
            final(self).seen() == set_push(old(self).seen(), item),
            final(self).delivered() == old(self).delivered(),
    {
        let mut i: usize = 0;
        while i < self.seen.len()
            invariant
                i <= self.seen@.len(),
                self.wf(),
                self.seen@ == old(self).seen@,
                self.delivered == old(self).delivered,
                T::obeys_eq_spec(),
                forall|k: int| 0 <= k < i ==> !(#[trigger] self.seen@[k]).eq_spec(&item),
            decreases self.seen.len() - i,
        {
            if self.seen[i] == item {
                assert(self.seen@[i as int].eq_spec(&item));
                return false;
            }
            i += 1;
        }
        self.seen.push(item);
        true
    }

    /// Hands out the next pending item, or `None` when all were delivered.
    pub fn poll(&mut self) -> (r: Option<T>)
        requires
            old(self).wf(),
        ensures
            final(self).wf(),
            final(self).seen() == old(self).seen(),
            match r {
                Some(v) => old(self).pending().len() > 0 && v == old(self).pending()[0]
                    && final(self).delivered() == old(self).delivered() + 1,
                None => old(self).pending().len() == 0 && final(self).delivered() == old(self).delivered(),
            },
    {
        if self.delivered < self.seen.len() {
            let v = self.seen[self.delivered];
            self.delivered = self.delivered + 1;
            Some(v)
        } else {
            None
        }
    }
}

/// However items arrive, what a set queue has seen holds no item twice.
pub proof fn lemma_set_push_distinct<T: PartialEq>(seen: Seq<T>, x: T)
    requires
        all_distinct(seen),
    ensures
        all_distinct(set_push(seen, x)),
{
}

/// What a fresh set queue delivers for the arrivals `s`: every item of `s`
/// occurs in it, and none twice.
pub proof fn lemma_first_occurrences<T: PartialEq>(s: Seq<T>)
    requires
        forall|x: T| #[trigger] x.eq_spec(&x),
    ensures
        all_distinct(first_occurrences(s)),
        forall|i: int| 0 <= i < s.len() ==> is_member(first_occurrences(s), #[trigger] s[i]),
    decreases s.len(),
{
    if s.len() > 0 {
        let head = s.drop_last();
        let before = first_occurrences(head);
        let after = first_occurrences(s);
        lemma_first_occurrences(head);
        lemma_set_push_distinct(before, s.last());
        assert forall|i: int| 0 <= i < s.len() implies is_member(after, #[trigger] s[i]) by {
            if i < s.len() - 1 {
                assert(head[i] == s[i]);
                let k = choose|k: int| 0 <= k < before.len() && (#[trigger] before[k]).eq_spec(&s[i]);
                assert(after[k] == before[k]);
            } else {
                if !is_member(before, s.last()) {
                    assert(after[after.len() - 1] == s.last());
                    assert(s.last().eq_spec(&s.last()));
                }
            }
        }
    }
}

/// Pushes every item of `items`, in order.
pub fn set_push_all<T: PartialEq + Copy>(q: &mut SetInputQueue<T>, items: &[T])
    requires
        old(q).wf(),
        T::obeys_eq_spec(),
    ensures
        final(q).wf(),
        final(q).delivered() == old(q).delivered(),
        final(q).seen() == set_push_seq(old(q).seen(), items@),
{
    let mut i: usize = 0;
    while i < items.len()
        invariant
            i <= items.len(),
            q.wf(),
            T::obeys_eq_spec(),
            q.delivered() == old(q).delivered(),
            q.seen() == set_push_seq(old(q).seen(), items@.take(i as int)),
        decreases items.len() - i,
    {
        q.push(items[i]);
        proof {
            assert(items@.take(i + 1).drop_last() =~= items@.take(i as int));
            assert(items@.take(i + 1).last() == items@[i as int]);
        }
        i += 1;
    }
    assert(items@.take(i as int) =~= items@);
}

// ---------------------------------------------------------------------------
// Dict
// ---------------------------------------------------------------------------
/// The index of the first entry of `s` whose key equals `k`; the length of
/// `s` if there is none.
pub open spec fn position<K: PartialEq, V>(s: Seq<(K, V)>, k: K) -> int
    decreases s.len(),
{
    if s.len() == 0 {
        0
    } else if s[0].0.eq_spec(&k) {
        0
    } else {
        1 + position(s.skip(1), k)
    }
}

/// The value stored for `k`, if any.
pub open spec fn lookup<K: PartialEq, V>(s: Seq<(K, V)>, k: K) -> Option<V> {
    let i = position(s, k);
    if 0 <= i < s.len() {
        Some(s[i].1)
    } else {
        None
    }
}

/// Whether storing `v` for `k` changes what is stored: the key is new, or its
/// value differs from `v`.
pub open spec fn dict_changes<K: PartialEq, V: PartialEq>(s: Seq<(K, V)>, k: K, v: V) -> bool {
    match lookup(s, k) {
        Some(stored) => !stored.eq_spec(&v),
        None => true,
    }
}

/// The entries after `v` was stored for `k`: the entry of `k` has the new
/// value, or a new entry stands at the end.
pub open spec fn dict_put<K: PartialEq, V>(s: Seq<(K, V)>, k: K, v: V) -> Seq<(K, V)> {
    let i = position(s, k);
    if 0 <= i < s.len() {
        s.update(i, (s[i].0, v))
    } else {
        s.push((k, v))
    }
}

/// Whether no key of `s` equals an earlier one.
pub open spec fn distinct_keys<K: PartialEq, V>(s: Seq<(K, V)>) -> bool {
    forall|i: int, j: int|
        #![trigger s[i], s[j]]
        0 <= i < j < s.len() ==> !s[i].0.eq_spec(&s[j].0)
}

/// Where `position` points: within the entries or just behind them, at an
/// entry with the key if within, and behind every entry without it.
pub proof fn lemma_position<K: PartialEq, V>(s: Seq<(K, V)>, k: K)
    ensures
        0 <= position(s, k) <= s.len(),
        position(s, k) < s.len() ==> s[position(s, k)].0.eq_spec(&k),
        forall|j: int| 0 <= j < position(s, k) ==> !(#[trigger] s[j]).0.eq_spec(&k),
    decreases s.len(),
{
    if s.len() > 0 && !s[0].0.eq_spec(&k) {
        let tail = s.skip(1);
        lemma_position(tail, k);
        assert forall|j: int| 0 <= j < position(s, k) implies !(#[trigger] s[j]).0.eq_spec(
            &k,
        ) by {
            if j > 0 {
                assert(tail[j - 1] == s[j]);
            }
        }
    }
}

/// The first entry that matches is where `position` points.
pub proof fn lemma_position_is_first<K: PartialEq, V>(s: Seq<(K, V)>, k: K, i: int)
    requires
        0 <= i <= s.len(),
        forall|j: int| 0 <= j < i ==> !(#[trigger] s[j]).0.eq_spec(&k),
        i < s.len() ==> s[i].0.eq_spec(&k),
    ensures
        position(s, k) == i,
    decreases i,
{
    if i > 0 {
        let tail = s.skip(1);
        assert(!s[0].0.eq_spec(&k));
        assert forall|j: int| 0 <= j < i - 1 implies !(#[trigger] tail[j]).0.eq_spec(&k) by {
            assert(tail[j] == s[j + 1]);
        }
        lemma_position_is_first(tail, k, i - 1);
    }
}

/// Once a value is stored for a key, storing the same value again changes
/// nothing.
pub proof fn lemma_dict_put_settles<K: PartialEq, V: PartialEq>(s: Seq<(K, V)>, k: K, v: V)
    requires
        k.eq_spec(&k),
        v.eq_spec(&v),
    ensures
        lookup(dict_put(s, k, v), k) == Some(v),
        !dict_changes(dict_put(s, k, v), k, v),
{
    let i = position(s, k);
    let t = dict_put(s, k, v);
    lemma_position(s, k);
    assert forall|j: int| 0 <= j < i implies !(#[trigger] t[j]).0.eq_spec(&k) by {
        assert(t[j] == s[j]);
    }
    lemma_position_is_first(t, k, i);
}

/// Storing a value keeps the keys distinct.
pub proof fn lemma_dict_put_distinct<K: PartialEq, V>(s: Seq<(K, V)>, k: K, v: V)
    requires
        distinct_keys(s),
    ensures
        distinct_keys(dict_put(s, k, v)),
{
    let t = dict_put(s, k, v);
    lemma_position(s, k);
    assert forall|i: int, j: int| 0 <= i < j < t.len() implies !(#[trigger] t[i]).0.eq_spec(
        &(#[trigger] t[j]).0,
    ) by {
        if position(s, k) < s.len() {
            assert(t[i].0 == s[i].0 && t[j].0 == s[j].0);
        } else if j < s.len() {
            assert(t[i] == s[i] && t[j] == s[j]);
        } else {
            assert(t[i] == s[i]);
        }
    }
}

/// Keeps the latest value of each key and delivers a pair whenever the value
/// of a key changes, in the order of the changes.
pub struct DictInputQueue<K, V> {
    values: Vec<(K, V)>,
    changes: Vec<(K, V)>,
    delivered: usize,
}

impl<K: PartialEq + Copy, V: PartialEq + Copy> DictInputQueue<K, V> {
    /// The value stored for each key, keys in order of first arrival.
    pub closed spec fn stored(&self) -> Seq<(K, V)> {
        self.values@
    }

    /// Every change that ever arrived, oldest first.
    pub closed spec fn changes(&self) -> Seq<(K, V)> {
        self.changes@
    }

    /// How many of the changes were handed out by `poll`.
    pub closed spec fn delivered(&self) -> nat {
        self.delivered as nat
    }

    /// The changes that `poll` has yet to hand out, next first.
    pub open spec fn pending(&self) -> Seq<(K, V)> {
        self.changes().skip(self.delivered() as int)
    }

    /// The invariant of the queue: no key is stored twice, and no more was
    /// delivered than changed.
    pub open spec fn wf(&self) -> bool {
        &&& distinct_keys(self.stored())
        &&& self.delivered() <= self.changes().len()
    }

    /// A queue that stores nothing.
    pub fn new() -> (q: Self)
        ensures
            q.wf(),
            q.stored() == Seq::<(K, V)>::empty(),
            q.changes() == Seq::<(K, V)>::empty(),
            q.delivered() == 0,
    {
        DictInputQueue { values: Vec::new(), changes: Vec::new(), delivered: 0 }
    }

    /// Takes in a pair: nothing happens if `value` is what is stored for
    /// `key`, else it is stored and the pair is the next to be delivered after
    /// those pending. Returns whether anything changed.
    pub fn push(&mut self, key: K, value: V) -> (changed: bool)
        requires
            old(self).wf(),
            K::obeys_eq_spec(),
            V::obeys_eq_spec(),
        ensures
            final(self).wf(),
            changed == dict_changes(old(self).stored(), key, value),
            final(self).delivered() == old(self).delivered(),
            changed ==> final(self).stored() == dict_put(old(self).stored(), key, value)
                && final(self).changes() == old(self).changes().push((key, value)),
            !changed ==> final(self).stored() == old(self).stored() && final(self).changes()
                == old(self).changes(),
    {
        let mut i: usize = 0;
        while i < self.values.len()
            invariant
                i <= self.values@.len(),
                self.wf(),
                self.values@ == old(self).values@,
                self.changes@ == old(self).changes@,
                self.delivered == old(self).delivered,
                K::obeys_eq_spec(),
                V::obeys_eq_spec(),
                forall|k: int| 0 <= k < i ==> !(#[trigger] self.values@[k]).0.eq_spec(&key),
            decreases self.values.len() - i,
        {
            let entry = self.values[i];
            if entry.0 == key {
                proof {
                    lemma_position_is_first(self.values@, key, i as int);
                    lemma_dict_put_distinct(self.values@, key, value);
                }
                if entry.1 == value {
                    return false;
                }
                self.values[i] = (entry.0, value);
                self.changes.push((key, value));
                return true;
            }
            i += 1;
        }
        proof {
            lemma_position_is_first(self.values@, key, i as int);
            lemma_dict_put_distinct(self.values@, key, value);
        }
        self.values.push((key, value));
        self.changes.push((key, value));
        true
    }

    /// The value stored for `key`, if any.
    pub fn get(&self, key: K) -> (r: Option<V>)
        requires
            K::obeys_eq_spec(),
        ensures
            r == lookup(self.stored(), key),
    {
        let mut i: usize = 0;
        while i < self.values.len()
            invariant
                i <= self.values@.len(),
                K::obeys_eq_spec(),
                forall|k: int| 0 <= k < i ==> !(#[trigger] self.values@[k]).0.eq_spec(&key),
            decreases self.values.len() - i,
        {
            let entry = self.values[i];
            if entry.0 == key {
                proof {
                    lemma_position_is_first(self.values@, key, i as int);
                }
                return Some(entry.1);
            }
            i += 1;
        }
        proof {
            lemma_position_is_first(self.values@, key, i as int);
        }
        None
    }

    /// Hands out the next pending change, or `None` when all were delivered.
    pub fn poll(&mut self) -> (r: Option<(K, V)>)
        requires
            old(self).wf(),
        ensures
            final(self).wf(),
            final(self).stored() == old(self).stored(),
            final(self).changes() == old(self).changes(),
            match r {
                Some(v) => old(self).pending().len() > 0 && v == old(self).pending()[0]
                    && final(self).delivered() == old(self).delivered() + 1,
                None => old(self).pending().len() == 0 && final(self).delivered() == old(self).delivered(),
            },
    {
        if self.delivered < self.changes.len() {
            let v = self.changes[self.delivered];
            self.delivered = self.delivered + 1;
            Some(v)
        } else {
            None
        }
    }
}

// ---------------------------------------------------------------------------
// Sinks for bytes from the network
// ---------------------------------------------------------------------------
impl PushByteData for BurstScalarInputQueue<Vec<u8>> {
    /// The payload is appended to what is buffered.
    open spec fn pushed(pre: &Self, payload: Seq<u8>, post: &Self) -> bool {
        &&& post@.len() == pre@.len() + 1
        &&& post@.drop_last() == pre@
        &&& post@.last()@ == payload
        &&& post.named_as(pre)
    }

    fn push_data(&mut self, v: &[u8]) {
        self.push(slice_to_vec(v));
        assert(self@.drop_last() =~= old(self)@);
    }
}

impl PushByteData for LastValueScalarInputQueue<Vec<u8>> {
    /// The payload takes the place of what was pending.
    open spec fn pushed(pre: &Self, payload: Seq<u8>, post: &Self) -> bool {
        &&& post.pending() matches Some(v) && v@ == payload
        &&& post.named_as(pre)
    }

    fn push_data(&mut self, v: &[u8]) {
        self.push(slice_to_vec(v));
    }
}

// ---------------------------------------------------------------------------
// The publisher
// ---------------------------------------------------------------------------
/// A fan-out publisher. It owns the queues of its in-process consumers, and
/// knows the channels on which its items leave for the network.
pub struct ScalarOutputQueue<T> {
    service: String,
    last_value: Vec<LastValueScalarInputQueue<T>>,
    burst: Vec<BurstScalarInputQueue<T>>,
    tcp: Vec<String>,
}

/// The publisher, by its short name.
pub type OutputQueue<T> = ScalarOutputQueue<T>;

/// The names of a list of channels.
pub open spec fn names(channels: Seq<String>) -> Seq<Seq<char>> {
    channels.map_values(|c: String| c@)
}

impl<T: Copy> ScalarOutputQueue<T> {
    /// The last-value consumers, in the order in which they were attached.
    pub closed spec fn last_value_sinks(&self) -> Seq<LastValueScalarInputQueue<T>> {
        self.last_value@
    }

    /// The burst consumers, in the order in which they were attached.
    pub closed spec fn burst_sinks(&self) -> Seq<BurstScalarInputQueue<T>> {
        self.burst@
    }

    /// The channels of the TCP sinks, in the order in which they were
    /// attached.
    pub closed spec fn tcp_sinks(&self) -> Seq<Seq<char>> {
        names(self.tcp@)
    }

    /// The name of the service that the publisher belongs to.
    pub closed spec fn service_name(&self) -> Seq<char> {
        self.service@
    }

    /// The name of the service that the publisher belongs to.
    pub fn service(&self) -> (r: &str)
        ensures
            r@ == self.service_name(),
    {
        self.service.as_str()
    }

    /// A publisher of a service, without sinks.
    pub fn new(service: String) -> (q: Self)
        ensures
            q.service_name() == service@,
            q.last_value_sinks().len() == 0,
            q.burst_sinks().len() == 0,
            q.tcp_sinks().len() == 0,
    {
        ScalarOutputQueue { service, last_value: Vec::new(), burst: Vec::new(), tcp: Vec::new() }
    }

    /// How many last-value consumers are attached.
    pub fn last_value_count(&self) -> (n: usize)
        ensures
            n == self.last_value_sinks().len(),
    {
        self.last_value.len()
    }

    /// How many burst consumers are attached.
    pub fn burst_count(&self) -> (n: usize)
        ensures
            n == self.burst_sinks().len(),
    {
        self.burst.len()
    }

    /// Attaches a last-value consumer for `channel_id` and returns its index.
    pub fn lv_input_queue(&mut self, channel_id: String) -> (index: usize)
        ensures
            index == old(self).last_value_sinks().len(),
            final(self).last_value_sinks() == old(self).last_value_sinks().push(
                final(self).last_value_sinks()[index as int],
            ),
            final(self).last_value_sinks()[index as int].pending().is_none(),
            final(self).last_value_sinks()[index as int].channel_name() == channel_id@,
            final(self).last_value_sinks()[index as int].service_name() == old(
                self).service_name(),
            final(self).service_name() == old(self).service_name(),
            final(self).burst_sinks() == old(self).burst_sinks(),
            final(self).tcp_sinks() == old(self).tcp_sinks(),
    {
        self.last_value.push(LastValueScalarInputQueue::new(channel_id, self.service.clone()));
        self.last_value.len() - 1
    }

    /// Attaches a burst consumer for `channel_id` and returns its index.
    pub fn burst_input_queue(&mut self, channel_id: String) -> (index: usize)
        ensures
            index == old(self).burst_sinks().len(),
            final(self).burst_sinks() == old(self).burst_sinks().push(
                final(self).burst_sinks()[index as int],
            ),
            final(self).burst_sinks()[index as int]@.len() == 0,
            final(self).burst_sinks()[index as int].channel_name() == channel_id@,
            final(self).burst_sinks()[index as int].service_name() == old(self).service_name(),
            final(self).service_name() == old(self).service_name(),
            final(self).last_value_sinks() == old(self).last_value_sinks(),
            final(self).tcp_sinks() == old(self).tcp_sinks(),
    {
        self.burst.push(BurstScalarInputQueue::new(channel_id, self.service.clone()));
        self.burst.len() - 1
    }

    /// Attaches a TCP sink for `channel`.
    pub fn tcp_sink(&mut self, channel: String)
        ensures
            final(self).tcp_sinks() == old(self).tcp_sinks().push(channel@),
            final(self).service_name() == old(self).service_name(),
            final(self).last_value_sinks() == old(self).last_value_sinks(),
            final(self).burst_sinks() == old(self).burst_sinks(),
    {
        self.tcp.push(channel);
        assert(names(self.tcp@) =~= names(old(self).tcp@).push(channel@));
    }

    /// Publishes `item`: every last-value consumer has it pending, every burst
    /// consumer has it at the end of its buffer, and for every TCP sink one
    /// message with `payload` is returned, in the order of the sinks. With no
    /// sink attached nothing happens. `payload` is the serialised item.
    pub fn send(&mut self, item: T, payload: &[u8]) -> (out: Vec<QueueMessage>)
        ensures
            final(self).tcp_sinks() == old(self).tcp_sinks(),
            final(self).service_name() == old(self).service_name(),
            final(self).last_value_sinks().len() == old(self).last_value_sinks().len(),
            forall|i: int|
                0 <= i < final(self).last_value_sinks().len() ==> (
                #[trigger] final(self).last_value_sinks()[i]).pending() == Some(item)
                    && final(self).last_value_sinks()[i].named_as(
                    &old(self).last_value_sinks()[i],
                ),
            final(self).burst_sinks().len() == old(self).burst_sinks().len(),
            forall|i: int|
                0 <= i < final(self).burst_sinks().len() ==> (
                #[trigger] final(self).burst_sinks()[i])@ == old(self).burst_sinks()[i]@.push(
                    item,
                ) && final(self).burst_sinks()[i].named_as(&old(self).burst_sinks()[i]),
            out@.len() == old(self).tcp_sinks().len(),
            forall|i: int|
                0 <= i < out@.len() ==> (#[trigger] out@[i]).channel_name@ == old(
                    self).tcp_sinks()[i] && out@[i].data@ == payload@,
    {
        let mut i: usize = 0;
        while i < self.last_value.len()
            invariant
                i <= self.last_value@.len(),
                self.last_value@.len() == old(self).last_value@.len(),
                self.burst@ == old(self).burst@,
                self.tcp@ == old(self).tcp@,
                self.service == old(self).service,
                forall|k: int|
                    0 <= k < self.last_value@.len() ==> (#[trigger] self.last_value@[k]).named_as(
                        &old(self).last_value@[k],
                    ),
                forall|k: int| 0 <= k < i ==> (#[trigger] self.last_value@[k]).pending() == Some(item),
            decreases self.last_value.len() - i,
        {
            self.last_value[i].push(item);
            i += 1;
        }
        let mut j: usize = 0;
        while j < self.burst.len()
            invariant
                j <= self.burst@.len(),
                self.burst@.len() == old(self).burst@.len(),
                self.tcp@ == old(self).tcp@,
                self.service == old(self).service,
                self.last_value@.len() == old(self).last_value@.len(),
                forall|k: int|
                    0 <= k < self.last_value@.len() ==> (#[trigger] self.last_value@[k]).pending()
                        == Some(item) && self.last_value@[k].named_as(&old(self).last_value@[k]),
                forall|k: int|
                    0 <= k < self.burst@.len() ==> (#[trigger] self.burst@[k]).named_as(
                        &old(self).burst@[k],
                    ),
                forall|k: int|
                    0 <= k < j ==> (#[trigger] self.burst@[k])@ == old(self).burst@[k]@.push(item),
                forall|k: int| j <= k < self.burst@.len() ==> self.burst@[k] == old(self).burst@[k],
            decreases self.burst.len() - j,
        {
            self.burst[j].push(item);
            j += 1;
        }
        let mut out: Vec<QueueMessage> = Vec::new();
        let mut k: usize = 0;
        while k < self.tcp.len()
            invariant
                k <= self.tcp@.len(),
                out@.len() == k,
                forall|n: int|
                    0 <= n < k ==> (#[trigger] out@[n]).channel_name@ == self.tcp@[n]@
                        && out@[n].data@ == payload@,
            decreases self.tcp.len() - k,
        {
            out.push(QueueMessage { channel_name: self.tcp[k].clone(), data: slice_to_vec(payload) });
            k += 1;
        }
        out
    }

    /// Polls the last-value consumer at `index`.
    pub fn poll_last_value(&mut self, index: usize) -> (r: Option<T>)
        requires
            index < old(self).last_value_sinks().len(),
        ensures
            r == old(self).last_value_sinks()[index as int].pending(),
            final(self).service_name() == old(self).service_name(),
            final(self).last_value_sinks().len() == old(self).last_value_sinks().len(),
            final(self).last_value_sinks()[index as int].pending().is_none(),
            final(self).last_value_sinks()[index as int].named_as(
                &old(self).last_value_sinks()[index as int],
            ),
            forall|i: int|
                0 <= i < final(self).last_value_sinks().len() && i != index ==> final(
                    self).last_value_sinks()[i] == old(self).last_value_sinks()[i],
            final(self).burst_sinks() == old(self).burst_sinks(),
            final(self).tcp_sinks() == old(self).tcp_sinks(),
    {
        self.last_value[index].poll()
    }

    /// Polls the burst consumer at `index`.
    pub fn poll_burst(&mut self, index: usize) -> (r: Vec<T>)
        requires
            index < old(self).burst_sinks().len(),
        ensures
            r@ == old(self).burst_sinks()[index as int]@,
            final(self).service_name() == old(self).service_name(),
            final(self).burst_sinks().len() == old(self).burst_sinks().len(),
            final(self).burst_sinks()[index as int]@.len() == 0,
            final(self).burst_sinks()[index as int].named_as(
                &old(self).burst_sinks()[index as int],
            ),
            forall|i: int|
                0 <= i < final(self).burst_sinks().len() && i != index ==> final(
                    self).burst_sinks()[i] == old(self).burst_sinks()[i],
            final(self).last_value_sinks() == old(self).last_value_sinks(),
            final(self).tcp_sinks() == old(self).tcp_sinks(),
    {
        self.burst[index].poll()
    }
}

} // verus!
