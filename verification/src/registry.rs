//! The channel registry: the set of channels known to a discovery server or
//! client, at most one per key, in order of first arrival.
use crate::messages::{
    channel_named, channel_views, channels_named, clone_channels, key_of, Channel, ChannelKey,
    ChannelView,
};
use vstd::prelude::*;

verus! {

/// The keys of a list of channels, in the order of the list.
pub open spec fn keys(s: Seq<ChannelView>) -> Seq<ChannelKey> {
    s.map_values(|c: ChannelView| key_of(c))
}

/// The keys of a list of channels, as a set.
pub open spec fn key_set(s: Seq<ChannelView>) -> Set<ChannelKey> {
    keys(s).to_set()
}

/// Insert if absent: a channel whose key is known changes nothing, any other
/// is added at the end.
pub open spec fn reg_insert(s: Seq<ChannelView>, c: ChannelView) -> Seq<ChannelView> {
    if keys(s).contains(key_of(c)) {
        s
    } else {
        s.push(c)
    }
}

/// The entry with key `k` is taken out, if there is one.
pub open spec fn reg_remove(s: Seq<ChannelView>, k: ChannelKey) -> Seq<ChannelView> {
    if keys(s).contains(k) {
        s.remove(keys(s).index_of(k))
    } else {
        s
    }
}

/// Every channel of `cs` is inserted, first to last.
pub open spec fn reg_merge(s: Seq<ChannelView>, cs: Seq<ChannelView>) -> Seq<ChannelView>
    decreases cs.len(),
{
    if cs.len() == 0 {
        s
    } else {
        reg_insert(reg_merge(s, cs.drop_last()), cs.last())
    }
}

/// Every channel of `cs` is removed, first to last.
pub open spec fn reg_remove_all(s: Seq<ChannelView>, cs: Seq<ChannelView>) -> Seq<ChannelView>
    decreases cs.len(),
{
    if cs.len() == 0 {
        s
    } else {
        reg_remove(reg_remove_all(s, cs.drop_last()), key_of(cs.last()))
    }
}

/// The invariant of a registry: no two of its channels have the same key,
/// and each has a name.
pub open spec fn registry_wf(s: Seq<ChannelView>) -> bool {
    keys(s).no_duplicates() && channels_named(s)
}

/// Inserting a channel that has a name into channels that have names leaves
/// channels that have names.
pub proof fn lemma_named_insert(s: Seq<ChannelView>, c: ChannelView)
    requires
        channels_named(s),
        channel_named(c),
    ensures
        channels_named(reg_insert(s, c)),
{
}

/// Removing a channel from channels that have names leaves channels that
/// have names.
pub proof fn lemma_named_remove(s: Seq<ChannelView>, k: ChannelKey)
    requires
        channels_named(s),
    ensures
        channels_named(reg_remove(s, k)),
{
    if keys(s).contains(k) {
        let at = keys(s).index_of(k);
        let t = s.remove(at);
        assert forall|i: int| 0 <= i < t.len() implies channel_named(#[trigger] t[i]) by {
            if i < at {
                assert(t[i] == s[i]);
            } else {
                assert(t[i] == s[i + 1]);
            }
        }
    }
}

/// Merging channels that have names into channels that have names leaves
/// channels that have names.
pub proof fn lemma_named_merge(s: Seq<ChannelView>, cs: Seq<ChannelView>)
    requires
        channels_named(s),
        channels_named(cs),
    ensures
        channels_named(reg_merge(s, cs)),
    decreases cs.len(),
{
    if cs.len() > 0 {
        let head = cs.drop_last();
        assert forall|i: int| 0 <= i < head.len() implies channel_named(#[trigger] head[i]) by {
            assert(head[i] == cs[i]);
        }
        lemma_named_merge(s, head);
        lemma_named_insert(reg_merge(s, head), cs.last());
    }
}

/// Removing channels from channels that have names leaves channels that have
/// names.
pub proof fn lemma_named_remove_all(s: Seq<ChannelView>, cs: Seq<ChannelView>)
    requires
        channels_named(s),
    ensures
        channels_named(reg_remove_all(s, cs)),
    decreases cs.len(),
{
    if cs.len() > 0 {
        lemma_named_remove_all(s, cs.drop_last());
        lemma_named_remove(reg_remove_all(s, cs.drop_last()), key_of(cs.last()));
    }
}

/// Inserting keeps the keys distinct and adds the channel's key to the set.
pub proof fn lemma_reg_insert(s: Seq<ChannelView>, c: ChannelView)
    ensures
        keys(s).no_duplicates() ==> keys(reg_insert(s, c)).no_duplicates(),
        key_set(reg_insert(s, c)) == key_set(s).insert(key_of(c)),
{
    let t = reg_insert(s, c);
    if keys(s).contains(key_of(c)) {
        assert(key_set(s).insert(key_of(c)) =~= key_set(s));
    } else {
        assert(keys(t) =~= keys(s).push(key_of(c)));
        assert forall|k: ChannelKey| key_set(t).contains(k) <==> key_set(s).insert(
            key_of(c),
        ).contains(k) by {
            if key_set(t).contains(k) {
                let i = choose|i: int| 0 <= i < keys(t).len() && keys(t)[i] == k;
                if i < s.len() {
                    assert(keys(s)[i] == k);
                }
            }
            if key_set(s).contains(k) {
                let i = choose|i: int| 0 <= i < keys(s).len() && keys(s)[i] == k;
                assert(keys(t)[i] == k);
            }
            if k == key_of(c) {
                assert(keys(t)[s.len() as int] == k);
            }
        }
        assert(key_set(t) =~= key_set(s).insert(key_of(c)));
    }
}

/// Removing keeps the keys distinct and takes the key out of the set.
pub proof fn lemma_reg_remove(s: Seq<ChannelView>, k: ChannelKey)
    requires
        keys(s).no_duplicates(),
    ensures
        keys(reg_remove(s, k)).no_duplicates(),
        key_set(reg_remove(s, k)) == key_set(s).remove(k),
{
    let t = reg_remove(s, k);
    if keys(s).contains(k) {
        let at = keys(s).index_of(k);
        assert(keys(t) =~= keys(s).remove(at));
        assert forall|x: ChannelKey| key_set(t).contains(x) <==> key_set(s).remove(k).contains(
            x,
        ) by {
            if key_set(t).contains(x) {
                let i = choose|i: int| 0 <= i < keys(t).len() && keys(t)[i] == x;
                if i < at {
                    assert(keys(s)[i] == x);
                } else {
                    assert(keys(s)[i + 1] == x);
                }
            }
            if key_set(s).remove(k).contains(x) {
                let i = choose|i: int| 0 <= i < keys(s).len() && keys(s)[i] == x;
                if i < at {
                    assert(keys(t)[i] == x);
                } else {
                    assert(i != at);
                    assert(keys(t)[i - 1] == x);
                }
            }
        }
        assert(key_set(t) =~= key_set(s).remove(k));
    } else {
        assert(key_set(s).remove(k) =~= key_set(s));
    }
}

/// Merging keeps the keys distinct; the keys afterwards are those known
/// before together with those of the channels merged.
pub proof fn lemma_reg_merge(s: Seq<ChannelView>, cs: Seq<ChannelView>)
    ensures
        keys(s).no_duplicates() ==> keys(reg_merge(s, cs)).no_duplicates(),
        key_set(reg_merge(s, cs)) == key_set(s).union(key_set(cs)),
    decreases cs.len(),
{
    if cs.len() == 0 {
        assert(keys(cs) =~= Seq::<ChannelKey>::empty());
        assert(key_set(s).union(key_set(cs)) =~= key_set(s));
    } else {
        let head = cs.drop_last();
        lemma_reg_merge(s, head);
        lemma_reg_insert(reg_merge(s, head), cs.last());
        assert(keys(cs) =~= keys(head).push(key_of(cs.last())));
        assert forall|k: ChannelKey| key_set(cs).contains(k) <==> key_set(head).insert(
            key_of(cs.last()),
        ).contains(k) by {
            if key_set(cs).contains(k) {
                let i = choose|i: int| 0 <= i < keys(cs).len() && keys(cs)[i] == k;
                if i < head.len() {
                    assert(keys(head)[i] == k);
                }
            }
            if key_set(head).contains(k) {
                let i = choose|i: int| 0 <= i < keys(head).len() && keys(head)[i] == k;
                assert(keys(cs)[i] == k);
            }
            if k == key_of(cs.last()) {
                assert(keys(cs)[cs.len() - 1] == k);
            }
        }
        assert(key_set(cs) =~= key_set(head).insert(key_of(cs.last())));
        assert(key_set(reg_merge(s, cs)) =~= key_set(s).union(key_set(cs)));
    }
}

/// Removing a list of channels keeps the keys distinct; the keys afterwards
/// are those known before without those of the channels removed.
pub proof fn lemma_reg_remove_all(s: Seq<ChannelView>, cs: Seq<ChannelView>)
    requires
        keys(s).no_duplicates(),
    ensures
        keys(reg_remove_all(s, cs)).no_duplicates(),
        key_set(reg_remove_all(s, cs)) == key_set(s).difference(key_set(cs)),
    decreases cs.len(),
{
    if cs.len() == 0 {
        assert(keys(cs) =~= Seq::<ChannelKey>::empty());
        assert(key_set(s).difference(key_set(cs)) =~= key_set(s));
    } else {
        let head = cs.drop_last();
        lemma_reg_remove_all(s, head);
        lemma_reg_remove(reg_remove_all(s, head), key_of(cs.last()));
        assert(keys(cs) =~= keys(head).push(key_of(cs.last())));
        assert forall|k: ChannelKey| key_set(cs).contains(k) <==> key_set(head).insert(
            key_of(cs.last()),
        ).contains(k) by {
            if key_set(cs).contains(k) {
                let i = choose|i: int| 0 <= i < keys(cs).len() && keys(cs)[i] == k;
                if i < head.len() {
                    assert(keys(head)[i] == k);
                }
            }
            if key_set(head).contains(k) {
                let i = choose|i: int| 0 <= i < keys(head).len() && keys(head)[i] == k;
                assert(keys(cs)[i] == k);
            }
            if k == key_of(cs.last()) {
                assert(keys(cs)[cs.len() - 1] == k);
            }
        }
        assert(key_set(cs) =~= key_set(head).insert(key_of(cs.last())));
        assert(key_set(reg_remove_all(s, cs)) =~= key_set(s).difference(key_set(cs)));
    }
}

/// What one connection has contributed once it announced `channels`, having
/// contributed `mine` before.
pub open spec fn contributed_after(mine: Seq<ChannelView>, channels: Seq<ChannelView>) -> Seq<
    ChannelView,
> {
    reg_merge(mine, channels)
}

/// The registry once a connection that had contributed `mine` announced
/// `channels`: everything the connection has contributed is merged in.
pub open spec fn registry_after(
    registry: Seq<ChannelView>,
    mine: Seq<ChannelView>,
    channels: Seq<ChannelView>,
) -> Seq<ChannelView> {
    reg_merge(registry, contributed_after(mine, channels))
}

/// After two new connections announced their channels, the registry knows
/// what it knew before together with both announcements. When the first
/// connection then fails and what it contributed is removed, the keys of the
/// first announcement are gone and every other key is still known: if the two
/// announcements share no key and the registry was empty, exactly the second
/// announcement is left.
pub proof fn lemma_two_clients(registry: Seq<ChannelView>, a: Seq<ChannelView>, b: Seq<ChannelView>)
    requires
        keys(registry).no_duplicates(),
    ensures
        ({
            let none = Seq::<ChannelView>::empty();
            let both = registry_after(registry_after(registry, none, a), none, b);
            let left = reg_remove_all(both, contributed_after(none, a));
            &&& keys(both).no_duplicates()
            &&& key_set(both) == key_set(registry).union(key_set(a)).union(key_set(b))
            &&& key_set(left) == key_set(registry).union(key_set(b)).difference(key_set(a))
            &&& registry.len() == 0 && key_set(a).disjoint(key_set(b)) ==> key_set(left) == key_set(b)
        }),
{
    let none = Seq::<ChannelView>::empty();
    assert(keys(none) =~= Seq::<ChannelKey>::empty());
    assert(key_set(none) =~= Set::<ChannelKey>::empty());
    let mine_a = contributed_after(none, a);
    let mine_b = contributed_after(none, b);
    lemma_reg_merge(none, a);
    lemma_reg_merge(none, b);
    assert(key_set(mine_a) =~= key_set(a));
    assert(key_set(mine_b) =~= key_set(b));
    let first = registry_after(registry, none, a);
    lemma_reg_merge(registry, mine_a);
    let both = registry_after(first, none, b);
    lemma_reg_merge(first, mine_b);
    let left = reg_remove_all(both, mine_a);
    lemma_reg_remove_all(both, mine_a);
    assert(key_set(both) =~= key_set(registry).union(key_set(a)).union(key_set(b)));
    assert(key_set(left) =~= key_set(registry).union(key_set(b)).difference(key_set(a)));
    if registry.len() == 0 && key_set(a).disjoint(key_set(b)) {
        assert(keys(registry) =~= Seq::<ChannelKey>::empty());
        assert(key_set(registry) =~= Set::<ChannelKey>::empty());
        assert(key_set(left) =~= key_set(b));
    }
}

/// The channels known to one party of the discovery protocol.
pub struct ChannelRegistry {
    channels: Vec<Channel>,
}

impl View for ChannelRegistry {
    type V = Seq<ChannelView>;

    /// The channels known, in order of first arrival.
    closed spec fn view(&self) -> Seq<ChannelView> {
        channel_views(self.channels@)
    }
}

impl ChannelRegistry {
    /// The invariant of a registry: no two of its channels have the same key,
    /// and each has a name.
    pub open spec fn wf(&self) -> bool {
        registry_wf(self@)
    }

    /// An empty registry.
    pub fn new() -> (r: Self)
        ensures
            r.wf(),
            r@ == Seq::<ChannelView>::empty(),
    {
        let r = ChannelRegistry { channels: Vec::new() };
        assert(r@ =~= Seq::<ChannelView>::empty());
        assert(keys(r@) =~= Seq::<ChannelKey>::empty());
        r
    }

    /// How many channels are known.
    pub fn len(&self) -> (n: usize)
        ensures
            n == self@.len(),
    {
        self.channels.len()
    }

    /// The place of the channel with the key of `c`, if it is known.
    fn find(&self, c: &Channel) -> (r: Option<usize>)
        requires
            self.wf(),
        ensures
            match r {
                Some(i) => i < self@.len() && keys(self@).contains(key_of(c@)) && keys(
                    self@,
                ).index_of(key_of(c@)) == i,
                None => !keys(self@).contains(key_of(c@)),
            },
    {
        let mut i: usize = 0;
        while i < self.channels.len()
            invariant
                i <= self.channels@.len(),
                self.wf(),
                forall|k: int| 0 <= k < i ==> keys(self@)[k] != key_of(c@),
            decreases self.channels.len() - i,
        {
            if self.channels[i].same_key(c) {
                proof {
                    let ks = keys(self@);
                    let k = key_of(c@);
                    assert(ks[i as int] == k);
                    assert(ks.contains(k));
                    let j = ks.index_of(k);
                    assert(0 <= j < ks.len() && ks[j] == k);
                    assert(j == i);
                }
                return Some(i);
            }
            assert(keys(self@)[i as int] != key_of(c@));
            i += 1;
        }
        None
    }

    /// Whether a channel with the key of `c` is known.
    pub fn contains(&self, c: &Channel) -> (r: bool)
        requires
            self.wf(),
        ensures
            r == keys(self@).contains(key_of(c@)),
    {
        self.find(c).is_some()
    }

    /// Inserts `c` unless a channel with its key is known.
    /// Returns whether it was inserted.
    pub fn insert(&mut self, c: Channel) -> (fresh: bool)
        requires
            old(self).wf(),
            c.wf(),
        ensures
            final(self).wf(),
            fresh == !keys(old(self)@).contains(key_of(c@)),
            final(self)@ == reg_insert(old(self)@, c@),
    {
        proof {
            lemma_reg_insert(self@, c@);
            lemma_named_insert(self@, c@);
        }
        if self.find(&c).is_some() {
            return false;
        }
        self.channels.push(c);
        assert(self@ =~= old(self)@.push(c@));
        true
    }

    /// Removes the channel with the key of `c`, if it is known. Returns
    /// whether one was removed.
    pub fn remove(&mut self, c: &Channel) -> (found: bool)
        requires
            old(self).wf(),
        ensures
            final(self).wf(),
            found == keys(old(self)@).contains(key_of(c@)),
            final(self)@ == reg_remove(old(self)@, key_of(c@)),
    {
        proof {
            lemma_reg_remove(self@, key_of(c@));
            lemma_named_remove(self@, key_of(c@));
        }
        match self.find(c) {
            Some(i) => {
                self.channels.remove(i);
                assert(self@ =~= old(self)@.remove(i as int));
                true
            },
            None => false,
        }
    }

    /// Inserts every channel of `cs` that is not yet known, first to last.
    pub fn merge(&mut self, cs: &Vec<Channel>)
        requires
            old(self).wf(),
            channels_named(channel_views(cs@)),
        ensures
            final(self).wf(),
            final(self)@ == reg_merge(old(self)@, channel_views(cs@)),
    {
        let ghost views = channel_views(cs@);
        let mut i: usize = 0;
        while i < cs.len()
            invariant
                i <= cs.len(),
                views == channel_views(cs@),
                channels_named(views),
                self.wf(),
                self@ == reg_merge(old(self)@, views.take(i as int)),
            decreases cs.len() - i,
        {
            assert(channel_named(views[i as int]));
            self.insert(cs[i].clone());
            proof {
                assert(views.take(i + 1).drop_last() =~= views.take(i as int));
                assert(views.take(i + 1).last() == cs@[i as int]@);
            }
            i += 1;
        }
        assert(views.take(i as int) =~= views);
    }

    /// Removes every channel of `cs` that is known, first to last.
    pub fn remove_all(&mut self, cs: &Vec<Channel>)
        requires
            old(self).wf(),
        ensures
            final(self).wf(),
            final(self)@ == reg_remove_all(old(self)@, channel_views(cs@)),
    {
        let ghost views = channel_views(cs@);
        let mut i: usize = 0;
        while i < cs.len()
            invariant
                i <= cs.len(),
                views == channel_views(cs@),
                self.wf(),
                self@ == reg_remove_all(old(self)@, views.take(i as int)),
            decreases cs.len() - i,
        {
            self.remove(&cs[i]);
            proof {
                assert(views.take(i + 1).drop_last() =~= views.take(i as int));
                assert(views.take(i + 1).last() == cs@[i as int]@);
            }
            i += 1;
        }
        assert(views.take(i as int) =~= views);
    }

    /// A copy of every channel known, in order of first arrival.
    pub fn snapshot(&self) -> (r: Vec<Channel>)
        ensures
            channel_views(r@) == self@,
    {
        clone_channels(&self.channels)
    }
}

/// Whether a channel with the key of `c` is in the list.
pub fn has_key(list: &Vec<Channel>, c: &Channel) -> (r: bool)
    ensures
        r == keys(channel_views(list@)).contains(key_of(c@)),
{
    let mut i: usize = 0;
    while i < list.len()
        invariant
            i <= list.len(),
            forall|k: int| 0 <= k < i ==> keys(channel_views(list@))[k] != key_of(c@),
        decreases list.len() - i,
    {
        if list[i].same_key(c) {
            assert(keys(channel_views(list@))[i as int] == key_of(c@));
            return true;
        }
        assert(keys(channel_views(list@))[i as int] != key_of(c@));
        i += 1;
    }
    false
}

/// Merges a list of channels into another: every channel of `cs` whose key
/// is not yet in the list is added at its end, first to last.
pub fn merge_channels(list: &mut Vec<Channel>, cs: &Vec<Channel>)
    ensures
        channel_views(final(list)@) == reg_merge(channel_views(old(list)@), channel_views(cs@)),
{
    let ghost views = channel_views(cs@);
    let mut i: usize = 0;
    assert(views.take(0) =~= Seq::<ChannelView>::empty());
    while i < cs.len()
        invariant
            i <= cs.len(),
            views == channel_views(cs@),
            channel_views(list@) == reg_merge(channel_views(old(list)@), views.take(i as int)),
        decreases cs.len() - i,
    {
        let ghost before = channel_views(list@);
        proof {
            assert(views.take(i + 1).drop_last() =~= views.take(i as int));
            assert(views.take(i + 1).last() == cs@[i as int]@);
        }
        if !has_key(list, &cs[i]) {
            list.push(cs[i].clone());
            assert(channel_views(list@) =~= before.push(cs@[i as int]@));
        }
        i += 1;
    }
    assert(views.take(i as int) =~= views);
}

} // verus!
