//! The transport listener: hands each queue message that arrives to the
//! sinks registered for its channel.
use crate::msg_serde::{decode_queue_message, parse_queue_message};
use crate::messages::QueueMessage;
use crate::queues::PushByteData;
use crate::routes::{routes_get, routes_insert, routes_new, routes_of, Routes};
use crate::wire::{fails, DecodeError};
use vstd::prelude::*;

verus! {

/// How often `channel` occurs among `names`.
pub open spec fn occurrences(names: Seq<Seq<char>>, channel: Seq<char>) -> nat
    decreases names.len(),
{
    if names.len() == 0 {
        0
    } else if names.last() == channel {
        occurrences(names.drop_last(), channel) + 1
    } else {
        occurrences(names.drop_last(), channel)
    }
}

/// `post` is `pre` after one payload for `channel` was dispatched: each sink
/// registered for the channel took the payload, every other sink is as it
/// was.
pub open spec fn dispatched<S: PushByteData>(
    names: Seq<Seq<char>>,
    pre: Seq<S>,
    channel: Seq<char>,
    payload: Seq<u8>,
    post: Seq<S>,
) -> bool {
    &&& post.len() == pre.len()
    &&& forall|i: int|
        0 <= i < pre.len() && i < names.len() ==> if names[i] == channel {
            S::pushed(&pre[i], payload, &#[trigger] post[i])
        } else {
            post[i] == pre[i]
        }
}

/// The places at which `channel` occurs among `names`, lowest first.
pub open spec fn positions(names: Seq<Seq<char>>, channel: Seq<char>) -> Seq<u64>
    decreases names.len(),
{
    if names.len() == 0 {
        Seq::empty()
    } else if names.last() == channel {
        positions(names.drop_last(), channel).push((names.len() - 1) as u64)
    } else {
        positions(names.drop_last(), channel)
    }
}

/// Whether the index says where each channel's sinks are: a channel has an
/// entry exactly if it has a sink, and the entry lists the places of its
/// sinks, lowest first.
pub open spec fn index_matches(index: Map<Seq<char>, Seq<u64>>, names: Seq<Seq<char>>) -> bool {
    forall|c: Seq<char>|
        #![trigger index.dom().contains(c)]
        #![trigger positions(names, c)]
        if positions(names, c).len() == 0 {
            !index.dom().contains(c)
        } else {
            index.dom().contains(c) && index[c] == positions(names, c)
        }
}

/// The places of a channel are the places where its name stands, each once,
/// in rising order, and there are as many as the name occurs.
pub proof fn lemma_positions(names: Seq<Seq<char>>, channel: Seq<char>)
    requires
        names.len() <= u64::MAX,
    ensures
        positions(names, channel).len() == occurrences(names, channel),
        forall|j: int|
            0 <= j < positions(names, channel).len() ==> (#[trigger] positions(names, channel)[j])
                < names.len() && names[positions(names, channel)[j] as int] == channel,
        forall|j: int, k: int|
            0 <= j < k < positions(names, channel).len() ==> (#[trigger] positions(
                names,
                channel,
            )[j]) < (#[trigger] positions(names, channel)[k]),
        forall|i: int|
            0 <= i < names.len() && names[i] == channel ==> exists|j: int|
                0 <= j < positions(names, channel).len() && #[trigger] positions(names, channel)[j]
                    == i,
    decreases names.len(),
{
    if names.len() > 0 {
        let head = names.drop_last();
        let p = positions(head, channel);
        let q = positions(names, channel);
        lemma_positions(head, channel);
        assert forall|j: int| 0 <= j < q.len() implies (#[trigger] q[j]) < names.len()
            && names[q[j] as int] == channel by {
            if j < p.len() {
                assert(q[j] == p[j]);
                assert(head[p[j] as int] == names[p[j] as int]);
            }
        }
        assert forall|j: int, k: int| 0 <= j < k < q.len() implies (#[trigger] q[j]) < (
        #[trigger] q[k]) by {
            if k < p.len() {
                assert(q[j] == p[j] && q[k] == p[k]);
            } else {
                assert(q[j] == p[j]);
            }
        }
        assert forall|i: int| 0 <= i < names.len() && names[i] == channel implies exists|j: int|
            0 <= j < q.len() && #[trigger] q[j] == i by {
            if i < head.len() {
                assert(head[i] == names[i]);
                let j = choose|j: int| 0 <= j < p.len() && #[trigger] p[j] == i;
                assert(q[j] == i);
            } else {
                assert(q[q.len() - 1] == i);
            }
        }
    }
}

/// The sinks of a service, each registered under the name of a channel. An
/// index from channel names to the places of their sinks finds the sinks of
/// a message.
pub struct TcpTransportListener<S> {
    index: Routes,
    names: Ghost<Seq<Seq<char>>>,
    sinks: Vec<S>,
}

/// The listener, by the name of its task: it manages inbound connections.
pub type TcpConnManager<S> = TcpTransportListener<S>;

impl<S: PushByteData> TcpTransportListener<S> {
    /// The channel of each sink, in order of registration.
    pub closed spec fn channel_names(&self) -> Seq<Seq<char>> {
        self.names@
    }

    /// The sinks, in order of registration.
    pub closed spec fn sinks(&self) -> Seq<S> {
        self.sinks@
    }

    /// For each channel that has sinks, the places of its sinks.
    pub closed spec fn index(&self) -> Map<Seq<char>, Seq<u64>> {
        routes_of(self.index)
    }

    /// The invariant of a listener: each sink has its channel's name, and the
    /// index says where each channel's sinks are.
    pub open spec fn wf(&self) -> bool {
        &&& self.channel_names().len() == self.sinks().len()
        &&& index_matches(self.index(), self.channel_names())
    }

    /// A listener without sinks.
    pub fn new() -> (l: Self)
        ensures
            l.wf(),
            l.sinks().len() == 0,
    {
        TcpTransportListener { index: routes_new(), names: Ghost(Seq::empty()), sinks: Vec::new() }
    }

    /// How many sinks are registered.
    pub fn len(&self) -> (n: usize)
        ensures
            n == self.sinks().len(),
    {
        self.sinks.len()
    }

    /// Registers `sink` for the messages of `channel` and returns its index.
    /// A channel may have several sinks.
    pub fn register_sink(&mut self, channel: String, sink: S) -> (index: usize)
        requires
            old(self).wf(),
        ensures
            final(self).wf(),
            index == old(self).sinks().len(),
            final(self).channel_names() == old(self).channel_names().push(channel@),
            final(self).sinks() == old(self).sinks().push(sink),
    {
        let at = self.sinks.len();
        let ghost was = self.names@;
        let ghost name = channel@;
        let ghost table = routes_of(self.index);
        routes_insert(&mut self.index, channel, at as u64);
        self.sinks.push(sink);
        self.names = Ghost(was.push(name));
        proof {
            let now = was.push(name);
            assert(now.drop_last() =~= was);
            assert forall|c: Seq<char>|
                #![trigger routes_of(self.index).dom().contains(c)]
                #![trigger positions(now, c)]
                if positions(now, c).len() == 0 {
                    !routes_of(self.index).dom().contains(c)
                } else {
                    routes_of(self.index).dom().contains(c) && routes_of(self.index)[c]
                        == positions(now, c)
                } by {
                assert(table.dom().contains(c) || !table.dom().contains(c));
                if c == name {
                    if positions(was, c).len() == 0 {
                        assert(positions(now, c) =~= seq![at as u64]);
                    }
                }
            }
        }
        at
    }

    /// Registers `sink` as one that takes the messages of `channel`: another
    /// name for `register_sink`.
    pub fn add_producer(&mut self, channel: String, sink: S) -> (index: usize)
        requires
            old(self).wf(),
        ensures
            final(self).wf(),
            index == old(self).sinks().len(),
            final(self).channel_names() == old(self).channel_names().push(channel@),
            final(self).sinks() == old(self).sinks().push(sink),
    {
        self.register_sink(channel, sink)
    }

    /// The sink at `index`.
    pub fn sink(&self, index: usize) -> (s: &S)
        requires
            index < self.sinks().len(),
        ensures
            *s == self.sinks()[index as int],
    {
        &self.sinks[index]
    }

    /// Puts `sink` in the place of the sink at `index` and returns the one
    /// that was there.
    pub fn replace_sink(&mut self, index: usize, sink: S) -> (was: S)
        requires
            old(self).wf(),
            index < old(self).sinks().len(),
        ensures
            final(self).wf(),
            was == old(self).sinks()[index as int],
            final(self).channel_names() == old(self).channel_names(),
            final(self).sinks() == old(self).sinks().update(index as int, sink),
    {
        let mut sink = sink;
        core::mem::swap(&mut sink, &mut self.sinks[index]);
        assert(self.sinks@ =~= old(self).sinks@.update(index as int, self.sinks@[index as int]));
        sink
    }

    /// Hands the payload of `msg` to every sink registered for its channel
    /// and returns how many there were. A message for a channel without sinks
    /// is dropped: that is no error.
    pub fn dispatch(&mut self, msg: &QueueMessage) -> (delivered: usize)
        requires
            old(self).wf(),
        ensures
            final(self).wf(),
            final(self).channel_names() == old(self).channel_names(),
            dispatched(
                old(self).channel_names(),
                old(self).sinks(),
                msg@.channel_name,
                msg@.data,
                final(self).sinks(),
            ),
            delivered == occurrences(old(self).channel_names(), msg@.channel_name),
    {
        let ghost all = self.names@;
        let ghost channel = msg@.channel_name;
        let count = self.sinks.len();
        proof {
            lemma_positions(all, channel);
            assert(index_matches(routes_of(self.index), all));
            assert(routes_of(self.index).dom().contains(channel) || positions(all, channel).len()
                == 0);
        }
        let places = match routes_get(&self.index, msg.channel_name.as_str()) {
            Some(v) => v,
            None => {
                assert(positions(all, channel).len() == 0);
                return 0;
            },
        };
        assert(places@ == positions(all, channel));
        let mut k: usize = 0;
        while k < places.len()
            invariant
                k <= places@.len(),
                places@ == positions(all, channel),
                all == old(self).names@,
                all.len() == count,
                all.len() <= u64::MAX,
                self.names@ == all,
                self.index == old(self).index,
                self.sinks@.len() == count,
                old(self).sinks@.len() == count,
                forall|i: int|
                    0 <= i < count ==> if all[i] == channel && (k == places@.len() || i
                        < places@[k as int]) {
                        S::pushed(&old(self).sinks@[i], msg@.data, &#[trigger] self.sinks@[i])
                    } else {
                        self.sinks@[i] == old(self).sinks@[i]
                    },
            decreases places.len() - k,
        {
            proof {
                lemma_positions(all, channel);
            }
            let at = places[k] as usize;
            let ghost before = self.sinks@;
            self.sinks[at].push_data(msg.data.as_slice());
            proof {
                let p = positions(all, channel);
                assert forall|i: int| 0 <= i < count implies if all[i] == channel && (k + 1
                    == p.len() || i < p[k + 1]) {
                    S::pushed(&old(self).sinks@[i], msg@.data, &#[trigger] self.sinks@[i])
                } else {
                    self.sinks@[i] == old(self).sinks@[i]
                } by {
                    if i != at {
                        assert(self.sinks@[i] == before[i]);
                        if all[i] == channel {
                            let j = choose|j: int| 0 <= j < p.len() && #[trigger] p[j] == i;
                            if j < k {
                                assert(p[j] < p[k as int]);
                            } else if j > k {
                                if j > k + 1 {
                                    assert(p[k + 1] < p[j]);
                                }
                            }
                        }
                    } else {
                        assert(p[k as int] == at);
                        if k + 1 < p.len() {
                            assert(p[k as int] < p[k + 1]);
                        }
                    }
                }
            }
            k += 1;
        }
        places.len()
    }

    /// Decodes the body of one queue frame and dispatches the message. A body
    /// that cannot be decoded is dropped: no sink is touched and the error is
    /// returned.
    pub fn on_frame(&mut self, body: &[u8]) -> (r: Result<usize, DecodeError>)
        requires
            old(self).wf(),
        ensures
            final(self).wf(),
            final(self).channel_names() == old(self).channel_names(),
            match r {
                Ok(delivered) => parse_queue_message(body@) matches Ok((m, _)) && dispatched(
                    old(self).channel_names(),
                    old(self).sinks(),
                    m.channel_name,
                    m.data,
                    final(self).sinks(),
                ) && delivered == occurrences(old(self).channel_names(), m.channel_name),
                Err(e) => fails(parse_queue_message(body@), e) && final(self).sinks() == old(self).sinks(),
            },
    {
        match decode_queue_message(body) {
            Ok(msg) => Ok(self.dispatch(&msg)),
            Err(e) => Err(e),
        }
    }
}

} // verus!
