//! The transport sender: it keeps the routing table, the destinations and
//! the outbox, and decides where each message goes. Connecting and writing
//! are left to the caller, who reports back when a connection is live or has
//! failed. What each step does is said in [`crate::routing`].
use crate::discovery_service::port_text;
use crate::messages::{channel_views, Channel, QueueMessage, QueueMessageView};
use crate::outbox::Outbox;
use crate::routes::{
    no_routes, routes_get, routes_insert, routes_new, routes_of, routes_remove, with_route, Routes,
};
use crate::routing::{
    DestinationView, SenderView, address_host, after_replay, as_messages, first_live, host_port,
    hosts, ids, is_live, lemma_connected_wf, lemma_failed_is_unrouted, lemma_failed_wf,
    lemma_route_one_wf, pairs, replayed, resolve, route_addresses, route_all, route_one, routed,
    sender_wf, serves, unroute, unroute_all, without_id,
};
use crate::text::str_eq;
use crate::uri::Uri;
use vstd::prelude::*;
use vstd::string::StringExecFns;

verus! {

/// A destination: where it is, whether its connection is up, and the
/// channels routed to it.
pub struct Destination {
    id: u64,
    host: String,
    live: bool,
    channels: Vec<String>,
}

impl View for Destination {
    type V = DestinationView;

    closed spec fn view(&self) -> DestinationView {
        DestinationView {
            id: self.id,
            host: self.host@,
            live: self.live,
            channels: self.channels@.map_values(|c: String| c@),
        }
    }
}

/// The destinations of a list, each by its view.
pub open spec fn destination_views(ds: Seq<Destination>) -> Seq<DestinationView> {
    ds.map_values(|d: Destination| d@)
}

/// A connection that the caller is to open.
#[derive(Debug, PartialEq, Eq)]
pub struct Connect {
    /// The id under which to report the connection live or failed.
    pub destination: u64,
    /// The address to connect to, as `host:port`.
    pub host: String,
}

/// The connections of a list, each as an id and an address.
pub open spec fn connect_views(cs: Seq<Connect>) -> Seq<(u64, Seq<char>)> {
    cs.map_values(|c: Connect| (c.destination, c.host@))
}

/// What became of a message handed to `send`.
#[derive(Debug, PartialEq)]
pub enum SendAction {
    /// The caller is to write the message to this destination.
    Write { destination: u64, message: QueueMessage },
    /// No destination is live for the channel: the message is in the outbox.
    Stored,
}

/// The messages of a list, each by its view.
pub open spec fn message_views(ms: Seq<QueueMessage>) -> Seq<QueueMessageView> {
    ms.map_values(|m: QueueMessage| m@)
}

/// The sender's state: routing table, destinations and outbox.
pub struct TcpTransportSender {
    routes: Routes,
    destinations: Vec<Destination>,
    next_id: u64,
    outbox: Outbox,
}

impl View for TcpTransportSender {
    type V = SenderView;

    closed spec fn view(&self) -> SenderView {
        SenderView {
            routes: routes_of(self.routes),
            destinations: destination_views(self.destinations@),
            next_id: self.next_id,
            outbox: self.outbox@,
        }
    }
}

impl TcpTransportSender {
    /// The invariant of the sender.
    pub open spec fn wf(&self) -> bool {
        sender_wf(self@)
    }

    /// A sender that knows no destination and holds no message.
    pub fn new() -> (s: Self)
        ensures
            s.wf(),
            s@ == (SenderView {
                routes: no_routes(),
                destinations: Seq::empty(),
                next_id: 0,
                outbox: Seq::empty(),
            }),
    {
        let s = TcpTransportSender {
            routes: routes_new(),
            destinations: Vec::new(),
            next_id: 0,
            outbox: Outbox::new(),
        };
        assert(s@.destinations =~= Seq::empty());
        assert(hosts(s@.destinations) =~= Seq::empty());
        assert(ids(s@.destinations) =~= Seq::empty());
        s
    }

    /// How many messages wait in the outbox.
    pub fn outbox_len(&self) -> (n: usize)
        ensures
            n == self@.outbox.len(),
    {
        self.outbox.len()
    }

    /// How many destinations are known.
    pub fn destination_count(&self) -> (n: usize)
        ensures
            n == self@.destinations.len(),
    {
        self.destinations.len()
    }

    /// Whether the connection of destination `id` is up.
    pub fn is_live(&self, id: u64) -> (r: bool)
        ensures
            r == is_live(self@.destinations, id),
    {
        let mut i: usize = 0;
        while i < self.destinations.len()
            invariant
                i <= self.destinations@.len(),
                forall|k: int|
                    0 <= k < i ==> !((#[trigger] self@.destinations[k]).id == id
                        && self@.destinations[k].live),
            decreases self.destinations.len() - i,
        {
            if self.destinations[i].id == id && self.destinations[i].live {
                assert(self@.destinations[i as int].id == id && self@.destinations[i as int].live);
                return true;
            }
            i += 1;
        }
        false
    }

    /// The place of the destination at `host`, if it is known.
    fn find_host(&self, host: &str) -> (r: Option<usize>)
        requires
            self.wf(),
        ensures
            match r {
                Some(i) => i < self@.destinations.len() && hosts(self@.destinations).contains(
                    host@,
                ) && hosts(self@.destinations).index_of(host@) == i,
                None => !hosts(self@.destinations).contains(host@),
            },
    {
        let mut i: usize = 0;
        while i < self.destinations.len()
            invariant
                i <= self.destinations@.len(),
                self.wf(),
                forall|k: int| 0 <= k < i ==> hosts(self@.destinations)[k] != host@,
            decreases self.destinations.len() - i,
        {
            if str_eq(self.destinations[i].host.as_str(), host) {
                proof {
                    let hs = hosts(self@.destinations);
                    assert(hs[i as int] == host@);
                    let j = hs.index_of(host@);
                    assert(0 <= j < hs.len() && hs[j] == host@);
                }
                return Some(i);
            }
            assert(hosts(self@.destinations)[i as int] != host@);
            i += 1;
        }
        None
    }

    /// The place of the destination with this id, if it is known.
    fn find_id(&self, id: u64) -> (r: Option<usize>)
        requires
            self.wf(),
        ensures
            match r {
                Some(i) => i < self@.destinations.len() && ids(self@.destinations).contains(id)
                    && ids(self@.destinations).index_of(id) == i,
                None => !ids(self@.destinations).contains(id),
            },
    {
        let mut i: usize = 0;
        while i < self.destinations.len()
            invariant
                i <= self.destinations@.len(),
                self.wf(),
                forall|k: int| 0 <= k < i ==> ids(self@.destinations)[k] != id,
            decreases self.destinations.len() - i,
        {
            if self.destinations[i].id == id {
                proof {
                    let xs = ids(self@.destinations);
                    assert(xs[i as int] == id);
                    let j = xs.index_of(id);
                    assert(0 <= j < xs.len() && xs[j] == id);
                }
                return Some(i);
            }
            assert(ids(self@.destinations)[i as int] != id);
            i += 1;
        }
        None
    }

    /// The destination to which a message for `channel` would be written
    /// now, if any.
    pub fn resolve(&self, channel: &str) -> (r: Option<u64>)
        ensures
            r == resolve(self@, channel@),
    {
        let route = match routes_get(&self.routes, channel) {
            Some(v) => v,
            None => { return None; },
        };
        let mut i: usize = 0;
        assert(route@.skip(0) =~= route@);
        while i < route.len()
            invariant
                i <= route@.len(),
                resolve(self@, channel@) == first_live(route@.skip(i as int), self@.destinations),
            decreases route.len() - i,
        {
            assert(route@.skip(i as int)[0] == route@[i as int]);
            assert(route@.skip(i as int).skip(1) =~= route@.skip(i + 1));
            if self.is_live(route[i]) {
                return Some(route[i]);
            }
            i += 1;
        }
        None
    }

    /// Takes a message for `channel`. If a destination is live for the
    /// channel, the caller is told to write the message to the first such;
    /// nothing changes. Otherwise the message goes to the end of the outbox.
    pub fn send(&mut self, channel: String, data: Vec<u8>) -> (action: SendAction)
        ensures
            old(self).wf() ==> final(self).wf(),
            match action {
                SendAction::Write { destination, message } => {
                    &&& resolve(old(self)@, channel@) == Some(destination)
                    &&& message@ == (QueueMessageView { channel_name: channel@, data: data@ })
                    &&& final(self)@ == old(self)@
                },
                SendAction::Stored => {
                    &&& resolve(old(self)@, channel@).is_none()
                    &&& final(self)@ == (SenderView {
                        outbox: old(self)@.outbox.push((channel@, data@)),
                        ..old(self)@
                    })
                },
            },
    {
        match self.resolve(channel.as_str()) {
            Some(destination) => SendAction::Write {
                destination,
                message: QueueMessage { channel_name: channel, data },
            },
            None => {
                self.outbox.insert(channel, data);
                SendAction::Stored
            },
        }
    }

    /// Puts a message that an earlier run left undelivered at the end of the
    /// outbox.
    pub fn restore(&mut self, channel: String, data: Vec<u8>)
        ensures
            old(self).wf() ==> final(self).wf(),
            final(self)@ == (SenderView {
                outbox: old(self)@.outbox.push((channel@, data@)),
                ..old(self)@
            }),
    {
        self.outbox.insert(channel, data);
    }
}

/// Whether `channel` is among `channels`.
fn lists_channel(channels: &Vec<String>, channel: &str) -> (r: bool)
    ensures
        r == channels@.map_values(|c: String| c@).contains(channel@),
{
    let ghost names = channels@.map_values(|c: String| c@);
    let mut i: usize = 0;
    while i < channels.len()
        invariant
            i <= channels@.len(),
            names == channels@.map_values(|c: String| c@),
            forall|k: int| 0 <= k < i ==> names[k] != channel@,
        decreases channels.len() - i,
    {
        if str_eq(channels[i].as_str(), channel) {
            assert(names[i as int] == channel@);
            return true;
        }
        i += 1;
    }
    false
}

/// Writes the address of a destination: `host:port`.
pub fn host_text(hostname: &str, port: u16) -> (text: String)
    ensures
        text@ == host_port(hostname@, port),
{
    proof {
        reveal_strlit(":");
    }
    let mut text = hostname.to_owned();
    text.append(":");
    let digits = port_text(port);
    text.append(digits.as_str());
    assert(text@ =~= host_port(hostname@, port));
    text
}

/// The `host:port` of an address, if it names both.
pub fn host_of(address: &Uri) -> (r: Option<String>)
    ensures
        match r {
            Some(h) => address_host(address@) == Some(h@),
            None => address_host(address@).is_none(),
        },
{
    let hostname = match address.hostname() {
        Some(h) => h,
        None => { return None; },
    };
    let port = match address.port() {
        Some(p) => p,
        None => { return None; },
    };
    Some(host_text(hostname, port))
}

impl TcpTransportSender {
    /// Registers that `channel` is served at `host`, and returns the
    /// connection to open if the host was not known.
    pub fn route_to_host(&mut self, channel: &str, host: String) -> (r: Option<Connect>)
        requires
            old(self).wf(),
        ensures
            final(self).wf(),
            final(self)@ == route_one(old(self)@, channel@, host@),
            match r {
                Some(c) => {
                    &&& !hosts(old(self)@.destinations).contains(host@)
                    &&& old(self)@.next_id != u64::MAX
                    &&& c.destination == old(self)@.next_id
                    &&& c.host@ == host@
                    &&& pairs(final(self)@.destinations) == pairs(old(self)@.destinations).push(
                        (c.destination, c.host@),
                    )
                },
                None => {
                    &&& hosts(old(self)@.destinations).contains(host@) || old(self)@.next_id
                        == u64::MAX
                    &&& pairs(final(self)@.destinations) == pairs(old(self)@.destinations)
                },
            },
    {
        proof {
            lemma_route_one_wf(self@, channel@, host@);
        }
        match self.find_host(host.as_str()) {
            Some(i) => {
                if lists_channel(&self.destinations[i].channels, channel) {
                    return None;
                }
                let id = self.destinations[i].id;
                routes_insert(&mut self.routes, channel.to_owned(), id);
                self.destinations[i].channels.push(channel.to_owned());
                assert(self@.destinations =~= old(self)@.destinations.update(
                    i as int,
                    DestinationView {
                        channels: old(self)@.destinations[i as int].channels.push(channel@),
                        ..old(self)@.destinations[i as int]
                    },
                )) by {
                    assert(self@.destinations[i as int].channels =~= old(self)@.destinations[i as int].channels.push(
                        channel@,
                    ));
                }
                None
            },
            None => {
                if self.next_id == u64::MAX {
                    return None;
                }
                let id = self.next_id;
                routes_insert(&mut self.routes, channel.to_owned(), id);
                let mut channels: Vec<String> = Vec::new();
                channels.push(channel.to_owned());
                let connect = Connect { destination: id, host: host.clone() };
                let d = Destination { id, host, live: false, channels };
                assert(d@.channels =~= seq![channel@]);
                self.destinations.push(d);
                self.next_id = id + 1;
                assert(self@.destinations =~= old(self)@.destinations.push(d@));
                Some(connect)
            },
        }
    }

    /// Takes a routing update from discovery: every channel is routed to each
    /// of its addresses that names a host and a port. Returns the connections
    /// to open, one for each destination that was not known before, in the
    /// order in which they were found.
    pub fn on_routing_update(&mut self, channels: &Vec<Channel>) -> (out: Vec<Connect>)
        requires
            old(self).wf(),
        ensures
            final(self).wf(),
            final(self)@ == route_all(old(self)@, channel_views(channels@)),
            pairs(final(self)@.destinations) == pairs(old(self)@.destinations) + connect_views(
                out@,
            ),
    {
        let ghost views = channel_views(channels@);
        let mut out: Vec<Connect> = Vec::new();
        assert(pairs(self@.destinations) + connect_views(out@) =~= pairs(self@.destinations));
        let mut i: usize = 0;
        while i < channels.len()
            invariant
                i <= channels.len(),
                views == channel_views(channels@),
                self.wf(),
                self@ == route_all(old(self)@, views.take(i as int)),
                pairs(self@.destinations) == pairs(old(self)@.destinations) + connect_views(out@),
            decreases channels.len() - i,
        {
            let channel = &channels[i];
            let ghost start = self@;
            let ghost texts = channel@.addresses;
            proof {
                assert(views.take(i + 1).drop_last() =~= views.take(i as int));
                assert(views.take(i + 1).last() == channel@);
            }
            let mut j: usize = 0;
            while j < channel.addresses.len()
                invariant
                    j <= channel.addresses.len(),
                    texts == channel@.addresses,
                    self.wf(),
                    self@ == route_addresses(start, channel@.name, texts.take(j as int)),
                    pairs(self@.destinations) == pairs(old(self)@.destinations) + connect_views(
                        out@,
                    ),
                decreases channel.addresses.len() - j,
            {
                proof {
                    assert(texts.take(j + 1).drop_last() =~= texts.take(j as int));
                    assert(texts.take(j + 1).last() == channel.addresses@[j as int]@);
                }
                let ghost found = connect_views(out@);
                match host_of(&channel.addresses[j]) {
                    Some(host) => {
                        match self.route_to_host(channel.name.as_str(), host) {
                            Some(c) => {
                                let ghost pair = (c.destination, c.host@);
                                out.push(c);
                                assert(connect_views(out@) =~= found.push(pair));
                                assert(pairs(self@.destinations) =~= pairs(old(self)@.destinations)
                                    + connect_views(out@));
                            },
                            None => {},
                        }
                    },
                    None => {},
                }
                j += 1;
            }
            assert(texts.take(j as int) =~= texts);
            i += 1;
        }
        assert(views.take(i as int) =~= views);
        out
    }

    /// The caller reports that the connection of destination `id` is up. The
    /// destination is live from now on. Returned are the messages to write to
    /// it before any other: what the outbox holds for each of its channels,
    /// channel by channel, oldest first. These leave the outbox. An id that is
    /// not known changes nothing.
    pub fn on_connected(&mut self, id: u64) -> (out: Vec<QueueMessage>)
        requires
            old(self).wf(),
        ensures
            final(self).wf(),
            if ids(old(self)@.destinations).contains(id) {
                let i = ids(old(self)@.destinations).index_of(id);
                let d = old(self)@.destinations[i];
                &&& final(self)@ == (SenderView {
                    destinations: old(self)@.destinations.update(
                        i,
                        DestinationView { live: true, ..d },
                    ),
                    outbox: after_replay(old(self)@.outbox, d.channels),
                    ..old(self)@
                })
                &&& message_views(out@) == replayed(old(self)@.outbox, d.channels)
            } else {
                final(self)@ == old(self)@ && out@.len() == 0
            },
    {
        let mut out: Vec<QueueMessage> = Vec::new();
        let i = match self.find_id(id) {
            Some(i) => i,
            None => { return out; },
        };
        let ghost d = self@.destinations[i as int];
        self.destinations[i].live = true;
        proof {
            let now = self@.destinations;
            let was = old(self)@.destinations;
            assert(now =~= was.update(i as int, DestinationView { live: true, ..d }));
            lemma_connected_wf(old(self)@, i as int);
            assert(message_views(out@) =~= Seq::<QueueMessageView>::empty());
        }
        let ghost rows = self@.outbox;
        let ghost chans = d.channels;
        let mut k: usize = 0;
        while k < self.destinations[i as usize].channels.len()
            invariant
                i < self.destinations@.len(),
                k <= self.destinations@[i as int].channels@.len(),
                chans == self.destinations@[i as int]@.channels,
                self.wf(),
                self@ == (SenderView {
                    destinations: old(self)@.destinations.update(
                        i as int,
                        DestinationView { live: true, ..d },
                    ),
                    outbox: after_replay(rows, chans.take(k as int)),
                    ..old(self)@
                }),
                message_views(out@) == replayed(rows, chans.take(k as int)),
            decreases self.destinations@[i as int].channels@.len() - k,
        {
            proof {
                assert(chans.take(k + 1).drop_last() =~= chans.take(k as int));
                assert(chans.take(k + 1).last() == self.destinations@[i as int].channels@[k as int]@);
            }
            let name = self.destinations[i].channels[k].clone();
            let ghost before = message_views(out@);
            let ghost left = self@.outbox;
            let mut data = self.outbox.drain_all(name.as_str());
            let ghost payloads = data@.map_values(|d: Vec<u8>| d@);
            let mut n: usize = 0;
            while n < data.len()
                invariant
                    n <= data.len(),
                    payloads == data@.map_values(|d: Vec<u8>| d@),
                    message_views(out@) == before + as_messages(name@, payloads.take(n as int)),
                decreases data.len() - n,
            {
                let ghost sent = message_views(out@);
                let m = QueueMessage {
                    channel_name: name.clone(),
                    data: vstd::slice::slice_to_vec(data[n].as_slice()),
                };
                out.push(m);
                proof {
                    assert(message_views(out@) =~= sent.push(m@));
                    assert(as_messages(name@, payloads.take(n + 1)) =~= as_messages(
                        name@,
                        payloads.take(n as int),
                    ).push(m@));
                    assert(before + as_messages(name@, payloads.take(n + 1)) =~= sent.push(m@));
                }
                n += 1;
            }
            assert(payloads.take(n as int) =~= payloads);
            k += 1;
        }
        assert(chans.take(k as int) =~= chans);
        out
    }

    /// Takes destination `id` out of the route of `channel`.
    fn unroute(&mut self, channel: &str, id: u64)
        ensures
            final(self)@ == (SenderView {
                routes: unroute(old(self)@.routes, channel@, id),
                ..old(self)@
            }),
    {
        let route = match routes_get(&self.routes, channel) {
            Some(v) => v,
            None => { return ; },
        };
        let ghost table = self@.routes;
        routes_remove(&mut self.routes, channel);
        let mut k: usize = 0;
        assert(route@.take(0) =~= Seq::<u64>::empty());
        while k < route.len()
            invariant
                k <= route@.len(),
                route@ == table[channel@],
                self.destinations == old(self).destinations,
                self.next_id == old(self).next_id,
                self.outbox == old(self).outbox,
                routes_of(self.routes) == if without_id(route@.take(k as int), id).len() == 0 {
                    table.remove(channel@)
                } else {
                    table.insert(channel@, without_id(route@.take(k as int), id))
                },
            decreases route.len() - k,
        {
            let ghost kept = without_id(route@.take(k as int), id);
            let ghost now = routes_of(self.routes);
            proof {
                assert(route@.take(k + 1).drop_last() =~= route@.take(k as int));
                assert(route@.take(k + 1).last() == route@[k as int]);
            }
            if route[k] != id {
                routes_insert(&mut self.routes, channel.to_owned(), route[k]);
                proof {
                    let next = kept.push(route@[k as int]);
                    if kept.len() == 0 {
                        assert(with_route(now, channel@, route@[k as int]) =~= next);
                    }
                    assert(routes_of(self.routes) =~= table.insert(channel@, next));
                }
            }
            k += 1;
        }
        assert(route@.take(k as int) =~= route@);
    }

    /// The caller reports that the connection of destination `id` has failed.
    /// The destination leaves every route and is forgotten: messages for its
    /// channels go to another live destination of theirs, or to the outbox.
    /// No connection is opened again until a routing update names the address
    /// anew. An id that is not known changes nothing.
    pub fn on_failed(&mut self, id: u64)
        requires
            old(self).wf(),
        ensures
            final(self).wf(),
            if ids(old(self)@.destinations).contains(id) {
                let i = ids(old(self)@.destinations).index_of(id);
                final(self)@ == (SenderView {
                    routes: unroute_all(old(self)@.routes, old(self)@.destinations[i].channels, id),
                    destinations: old(self)@.destinations.remove(i),
                    ..old(self)@
                })
            } else {
                final(self)@ == old(self)@
            },
            !is_live(final(self)@.destinations, id),
            forall|c: Seq<char>| !(#[trigger] routed(final(self)@.routes, c, id)),
    {
        let i = match self.find_id(id) {
            Some(i) => i,
            None => {
                assert(!is_live(self@.destinations, id)) by {
                    if is_live(self@.destinations, id) {
                        let j = choose|j: int|
                            0 <= j < self@.destinations.len() && (
                            #[trigger] self@.destinations[j]).id == id;
                        assert(ids(self@.destinations)[j] == id);
                    }
                }
                assert forall|c: Seq<char>| !(#[trigger] routed(self@.routes, c, id)) by {
                    if routed(self@.routes, c, id) {
                        assert(serves(self@.destinations, id, c));
                        let j = choose|j: int|
                            0 <= j < self@.destinations.len() && (
                            #[trigger] self@.destinations[j]).id == id;
                        assert(ids(self@.destinations)[j] == id);
                    }
                }
                return ;
            },
        };
        let d = self.destinations.remove(i);
        proof {
            let was = old(self)@.destinations;
            let now = self@.destinations;
            assert(now =~= was.remove(i as int));
            lemma_failed_wf(old(self)@, i as int);
            assert(!is_live(now, id)) by {
                if is_live(now, id) {
                    let j = choose|j: int| 0 <= j < now.len() && (#[trigger] now[j]).id == id;
                    let j2 = if j < i { j } else { j + 1 };
                    assert(ids(was)[j2] == id && ids(was)[i as int] == id);
                }
            }
        }
        let ghost chans = d@.channels;
        let ghost table = old(self)@.routes;
        let mut k: usize = 0;
        while k < d.channels.len()
            invariant
                k <= d.channels@.len(),
                chans == d@.channels,
                chans == old(self)@.destinations[i as int].channels,
                !is_live(self@.destinations, id),
                self@ == (SenderView {
                    routes: unroute_all(table, chans.take(k as int), id),
                    destinations: old(self)@.destinations.remove(i as int),
                    ..old(self)@
                }),
            decreases d.channels.len() - k,
        {
            proof {
                assert(chans.take(k + 1).drop_last() =~= chans.take(k as int));
                assert(chans.take(k + 1).last() == d.channels@[k as int]@);
            }
            self.unroute(d.channels[k].as_str(), id);
            k += 1;
        }
        assert(chans.take(k as int) =~= chans);
        assert forall|c: Seq<char>| !(#[trigger] routed(self@.routes, c, id)) by {
            lemma_failed_is_unrouted(old(self)@, i as int, c);
        }
    }
}

} // verus!
