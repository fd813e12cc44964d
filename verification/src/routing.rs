//! The rules of the transport sender, as a state and its transitions: which
//! destination serves which channel, where a message goes, what a routing
//! update, a new connection and a failed connection do, and what comes out
//! of the outbox. The laws of the transport are proved here.
use crate::discovery_service::decimal;
use crate::messages::{ChannelView, QueueMessageView};
use crate::outbox::{lemma_fifo, lemma_without, messages_for, with_messages, without, Row};
use crate::routes::with_route;
use crate::uri::uri_parts;
use vstd::prelude::*;

verus! {


/// A destination as the sender knows it.
pub struct DestinationView {
    /// The id under which the routing table lists the destination.
    pub id: u64,
    /// Its address, as `host:port`.
    pub host: Seq<char>,
    /// Whether its connection is up.
    pub live: bool,
    /// The channels routed to it, in order of registration.
    pub channels: Seq<Seq<char>>,
}

/// The whole state of a sender.
pub struct SenderView {
    /// For each channel, the ids of the destinations that serve it.
    pub routes: Map<Seq<char>, Seq<u64>>,
    /// The destinations known, in order of first resolution.
    pub destinations: Seq<DestinationView>,
    /// The id that the next new destination gets.
    pub next_id: u64,
    /// The messages that wait for a destination.
    pub outbox: Seq<Row>,
}

/// The ids of a list of destinations.
pub open spec fn ids(ds: Seq<DestinationView>) -> Seq<u64> {
    ds.map_values(|d: DestinationView| d.id)
}

/// The addresses of a list of destinations.
pub open spec fn hosts(ds: Seq<DestinationView>) -> Seq<Seq<char>> {
    ds.map_values(|d: DestinationView| d.host)
}

/// Whether the destination with this id is known and its connection is up.
pub open spec fn is_live(ds: Seq<DestinationView>, id: u64) -> bool {
    exists|i: int| 0 <= i < ds.len() && (#[trigger] ds[i]).id == id && ds[i].live
}

/// The first of `route` whose connection is up.
pub open spec fn first_live(route: Seq<u64>, ds: Seq<DestinationView>) -> Option<u64>
    decreases route.len(),
{
    if route.len() == 0 {
        None
    } else if is_live(ds, route[0]) {
        Some(route[0])
    } else {
        first_live(route.skip(1), ds)
    }
}

/// The destination to which a message for `channel` is written now, if any:
/// the first one registered for the channel whose connection is up.
pub open spec fn resolve(v: SenderView, channel: Seq<char>) -> Option<u64> {
    if v.routes.dom().contains(channel) {
        first_live(v.routes[channel], v.destinations)
    } else {
        None
    }
}

/// The address of a destination: `host:port`.
pub open spec fn host_port(hostname: Seq<char>, port: u16) -> Seq<char> {
    hostname + seq![':'] + decimal(port as nat)
}

/// The `host:port` of an address text, if it names both.
pub open spec fn address_host(text: Seq<char>) -> Option<Seq<char>> {
    match (uri_parts(text).hostname, uri_parts(text).port) {
        (Some(h), Some(p)) => Some(host_port(h, p)),
        _ => None,
    }
}

/// The state after `channel` was found to be served at `host`. A host that
/// is not known becomes a new destination, not yet live, under the next id.
/// A known host gets the channel added, unless it has it.
pub open spec fn route_one(v: SenderView, channel: Seq<char>, host: Seq<char>) -> SenderView {
    if hosts(v.destinations).contains(host) {
        let i = hosts(v.destinations).index_of(host);
        let d = v.destinations[i];
        if d.channels.contains(channel) {
            v
        } else {
            SenderView {
                routes: v.routes.insert(channel, with_route(v.routes, channel, d.id)),
                destinations: v.destinations.update(
                    i,
                    DestinationView { channels: d.channels.push(channel), ..d },
                ),
                ..v
            }
        }
    } else if v.next_id == u64::MAX {
        v
    } else {
        SenderView {
            routes: v.routes.insert(channel, with_route(v.routes, channel, v.next_id)),
            destinations: v.destinations.push(
                DestinationView { id: v.next_id, host, live: false, channels: seq![channel] },
            ),
            next_id: (v.next_id + 1) as u64,
            ..v
        }
    }
}

/// The state after one address of `channel` was looked at: an address that
/// names no host or no port changes nothing.
pub open spec fn route_address(v: SenderView, channel: Seq<char>, address: Seq<char>) -> SenderView {
    match address_host(address) {
        Some(host) => route_one(v, channel, host),
        None => v,
    }
}

/// The state after every address of `channel` was looked at, first to last.
pub open spec fn route_addresses(v: SenderView, channel: Seq<char>, addresses: Seq<Seq<char>>) -> SenderView
    decreases addresses.len(),
{
    if addresses.len() == 0 {
        v
    } else {
        route_address(
            route_addresses(v, channel, addresses.drop_last()),
            channel,
            addresses.last(),
        )
    }
}

/// The state after a routing update: every address of every channel of the
/// update was looked at, in order.
pub open spec fn route_all(v: SenderView, channels: Seq<ChannelView>) -> SenderView
    decreases channels.len(),
{
    if channels.len() == 0 {
        v
    } else {
        route_addresses(
            route_all(v, channels.drop_last()),
            channels.last().name,
            channels.last().addresses,
        )
    }
}

/// `ids` without `id`.
pub open spec fn without_id(ids: Seq<u64>, id: u64) -> Seq<u64>
    decreases ids.len(),
{
    if ids.len() == 0 {
        Seq::empty()
    } else if ids.last() == id {
        without_id(ids.drop_last(), id)
    } else {
        without_id(ids.drop_last(), id).push(ids.last())
    }
}

/// The routing table after destination `id` stopped serving `channel`. A
/// channel that is left without destinations has no entry.
pub open spec fn unroute(routes: Map<Seq<char>, Seq<u64>>, channel: Seq<char>, id: u64) -> Map<
    Seq<char>,
    Seq<u64>,
> {
    if !routes.dom().contains(channel) {
        routes
    } else if without_id(routes[channel], id).len() == 0 {
        routes.remove(channel)
    } else {
        routes.insert(channel, without_id(routes[channel], id))
    }
}

/// The routing table after destination `id` stopped serving every channel of
/// `channels`.
pub open spec fn unroute_all(routes: Map<Seq<char>, Seq<u64>>, channels: Seq<Seq<char>>, id: u64) -> Map<
    Seq<char>,
    Seq<u64>,
>
    decreases channels.len(),
{
    if channels.len() == 0 {
        routes
    } else {
        unroute(unroute_all(routes, channels.drop_last(), id), channels.last(), id)
    }
}

/// The messages of `data`, each for `channel`.
pub open spec fn as_messages(channel: Seq<char>, data: Seq<Seq<u8>>) -> Seq<QueueMessageView> {
    data.map_values(|d: Seq<u8>| QueueMessageView { channel_name: channel, data: d })
}

/// What a replay takes out of the outbox for the channels of a destination:
/// channel by channel, the messages of each oldest first.
pub open spec fn replayed(rows: Seq<Row>, channels: Seq<Seq<char>>) -> Seq<QueueMessageView>
    decreases channels.len(),
{
    if channels.len() == 0 {
        Seq::empty()
    } else {
        replayed(rows, channels.drop_last()) + as_messages(
            channels.last(),
            messages_for(after_replay(rows, channels.drop_last()), channels.last()),
        )
    }
}

/// What a replay for the channels of a destination leaves in the outbox.
pub open spec fn after_replay(rows: Seq<Row>, channels: Seq<Seq<char>>) -> Seq<Row>
    decreases channels.len(),
{
    if channels.len() == 0 {
        rows
    } else {
        without(after_replay(rows, channels.drop_last()), channels.last())
    }
}

/// No id is left in a route from which it was taken out.
pub proof fn lemma_without_id(ids: Seq<u64>, id: u64)
    ensures
        !without_id(ids, id).contains(id),
        forall|x: u64| x != id && ids.contains(x) ==> without_id(ids, id).contains(x),
    decreases ids.len(),
{
    if ids.len() > 0 {
        let head = ids.drop_last();
        lemma_without_id(head, id);
        let out = without_id(ids, id);
        assert forall|x: u64| x != id && ids.contains(x) implies out.contains(x) by {
            let i = choose|i: int| 0 <= i < ids.len() && ids[i] == x;
            if i < head.len() {
                assert(head[i] == x);
                assert(head.contains(x));
                let j = choose|j: int|
                    0 <= j < without_id(head, id).len() && without_id(head, id)[j] == x;
                assert(out[j] == x);
            } else {
                assert(out[out.len() - 1] == x);
            }
        }
        if ids.last() != id {
            if out.contains(id) {
                let j = choose|j: int| 0 <= j < out.len() && out[j] == id;
                if j < out.len() - 1 {
                    assert(without_id(head, id)[j] == id);
                }
            }
        }
    }
}

/// A message is only ever written to a destination that is registered for
/// its channel and whose connection is up.
pub proof fn lemma_first_live(route: Seq<u64>, ds: Seq<DestinationView>)
    ensures
        match first_live(route, ds) {
            Some(id) => route.contains(id) && is_live(ds, id),
            None => forall|k: int| 0 <= k < route.len() ==> !is_live(ds, #[trigger] route[k]),
        },
    decreases route.len(),
{
    if route.len() > 0 {
        if is_live(ds, route[0]) {
            assert(route[0] == route[0]);
        } else {
            let tail = route.skip(1);
            lemma_first_live(tail, ds);
            match first_live(tail, ds) {
                Some(id) => {
                    let k = choose|k: int| 0 <= k < tail.len() && tail[k] == id;
                    assert(route[k + 1] == id);
                },
                None => {
                    assert forall|k: int| 0 <= k < route.len() implies !is_live(
                        ds,
                        #[trigger] route[k],
                    ) by {
                        if k > 0 {
                            assert(tail[k - 1] == route[k]);
                        }
                    }
                },
            }
        }
    }
}

/// The payloads of those messages of `msgs` that are for `channel`, in order.
pub open spec fn payloads_for(msgs: Seq<QueueMessageView>, channel: Seq<char>) -> Seq<Seq<u8>>
    decreases msgs.len(),
{
    if msgs.len() == 0 {
        Seq::empty()
    } else if msgs.last().channel_name == channel {
        payloads_for(msgs.drop_last(), channel).push(msgs.last().data)
    } else {
        payloads_for(msgs.drop_last(), channel)
    }
}

/// The payloads of two lists of messages, one after the other.
proof fn lemma_payloads_concat(a: Seq<QueueMessageView>, b: Seq<QueueMessageView>, channel: Seq<char>)
    ensures
        payloads_for(a + b, channel) == payloads_for(a, channel) + payloads_for(b, channel),
    decreases b.len(),
{
    if b.len() == 0 {
        assert(a + b =~= a);
        assert(payloads_for(a, channel) + payloads_for(b, channel) =~= payloads_for(a, channel));
    } else {
        lemma_payloads_concat(a, b.drop_last(), channel);
        assert((a + b).drop_last() =~= a + b.drop_last());
        assert((a + b).last() == b.last());
        if b.last().channel_name == channel {
            assert(payloads_for(a, channel) + payloads_for(b, channel) =~= (payloads_for(a, channel)
                + payloads_for(b.drop_last(), channel)).push(b.last().data));
        }
    }
}

/// The payloads of messages that are all for one channel.
proof fn lemma_payloads_of_messages(of: Seq<char>, data: Seq<Seq<u8>>, channel: Seq<char>)
    ensures
        payloads_for(as_messages(of, data), channel) == if of == channel {
            data
        } else {
            Seq::empty()
        },
    decreases data.len(),
{
    let msgs = as_messages(of, data);
    if data.len() == 0 {
        assert(data =~= Seq::empty());
    } else {
        lemma_payloads_of_messages(of, data.drop_last(), channel);
        assert(msgs.drop_last() =~= as_messages(of, data.drop_last()));
        assert(msgs.last().channel_name == of && msgs.last().data == data.last());
        if of == channel {
            assert(data.drop_last().push(data.last()) =~= data);
        }
    }
}

/// What a replay leaves in the outbox: nothing for the channels replayed,
/// and for every other channel what was there.
pub proof fn lemma_after_replay(rows: Seq<Row>, channels: Seq<Seq<char>>, channel: Seq<char>)
    ensures
        messages_for(after_replay(rows, channels), channel) == if channels.contains(channel) {
            Seq::empty()
        } else {
            messages_for(rows, channel)
        },
    decreases channels.len(),
{
    if channels.len() > 0 {
        let head = channels.drop_last();
        lemma_after_replay(rows, head, channel);
        lemma_without(after_replay(rows, head), channels.last(), channel);
        if head.contains(channel) {
            let i = choose|i: int| 0 <= i < head.len() && head[i] == channel;
            assert(channels[i] == channel);
        }
        if channels.last() == channel {
            assert(channels[channels.len() - 1] == channel);
        }
        if channels.contains(channel) && channels.last() != channel {
            let i = choose|i: int| 0 <= i < channels.len() && channels[i] == channel;
            assert(head[i] == channel);
        }
    }
}

/// What a replay hands out for one channel: if the channel is among those
/// replayed, every message that the outbox held for it, oldest first, each
/// once; else nothing.
pub proof fn lemma_replay(rows: Seq<Row>, channels: Seq<Seq<char>>, channel: Seq<char>)
    ensures
        payloads_for(replayed(rows, channels), channel) == if channels.contains(channel) {
            messages_for(rows, channel)
        } else {
            Seq::empty()
        },
    decreases channels.len(),
{
    if channels.len() > 0 {
        let head = channels.drop_last();
        let last = channels.last();
        let left = after_replay(rows, head);
        lemma_replay(rows, head, channel);
        lemma_after_replay(rows, head, channel);
        lemma_payloads_concat(
            replayed(rows, head),
            as_messages(last, messages_for(left, last)),
            channel,
        );
        lemma_payloads_of_messages(last, messages_for(left, last), channel);
        if head.contains(channel) {
            let i = choose|i: int| 0 <= i < head.len() && head[i] == channel;
            assert(channels[i] == channel);
            assert(payloads_for(replayed(rows, channels), channel) =~= messages_for(rows, channel));
        } else if last == channel {
            assert(channels[channels.len() - 1] == channel);
            assert(payloads_for(replayed(rows, channels), channel) =~= messages_for(rows, channel));
        } else {
            if channels.contains(channel) {
                let i = choose|i: int| 0 <= i < channels.len() && channels[i] == channel;
                assert(head[i] == channel);
            }
            assert(payloads_for(replayed(rows, channels), channel) =~= Seq::<Seq<u8>>::empty());
        }
    }
}

/// Messages that were sent while their channel had no live destination wait
/// in the outbox. When a destination of the channel becomes live, the replay
/// hands them out after those that waited before, in the order in which they
/// were sent. They are then gone from the outbox, and a second replay hands
/// out none of them.
pub proof fn lemma_outbox_replay(
    rows: Seq<Row>,
    channel: Seq<char>,
    sent: Seq<Seq<u8>>,
    channels: Seq<Seq<char>>,
)
    requires
        channels.contains(channel),
    ensures
        ({
            let waiting = with_messages(rows, channel, sent);
            let left = after_replay(waiting, channels);
            &&& payloads_for(replayed(waiting, channels), channel) == messages_for(rows, channel)
                + sent
            &&& messages_for(left, channel) == Seq::<Seq<u8>>::empty()
            &&& payloads_for(replayed(left, channels), channel) == Seq::<Seq<u8>>::empty()
        }),
{
    let waiting = with_messages(rows, channel, sent);
    let left = after_replay(waiting, channels);
    lemma_fifo(rows, channel, sent);
    lemma_replay(waiting, channels, channel);
    lemma_after_replay(waiting, channels, channel);
    lemma_replay(left, channels, channel);
}

/// Whether the routing table lists destination `id` for `channel`.
pub open spec fn routed(routes: Map<Seq<char>, Seq<u64>>, channel: Seq<char>, id: u64) -> bool {
    routes.dom().contains(channel) && routes[channel].contains(id)
}

/// Whether a destination with this id is known and has `channel` among its
/// channels.
pub open spec fn serves(ds: Seq<DestinationView>, id: u64, channel: Seq<char>) -> bool {
    exists|i: int| 0 <= i < ds.len() && (#[trigger] ds[i]).id == id && ds[i].channels.contains(channel)
}

/// What was taken out of a route is not in it, and nothing else left it or
/// came into it.
pub proof fn lemma_without_id_members(ids: Seq<u64>, id: u64, x: u64)
    ensures
        without_id(ids, id).contains(x) <==> x != id && ids.contains(x),
    decreases ids.len(),
{
    lemma_without_id(ids, id);
    if ids.len() > 0 {
        let head = ids.drop_last();
        let out = without_id(ids, id);
        lemma_without_id_members(head, id, x);
        if out.contains(x) {
            let j = choose|j: int| 0 <= j < out.len() && out[j] == x;
            if ids.last() != id && j == out.len() - 1 {
                assert(ids[ids.len() - 1] == x);
            } else {
                assert(without_id(head, id)[j] == x);
                let k = choose|k: int| 0 <= k < head.len() && head[k] == x;
                assert(ids[k] == x);
            }
        }
    }
}

/// What one step of unrouting does to the table: the destination is no
/// longer listed for the channel, and every other listing is as it was.
pub proof fn lemma_unroute(
    routes: Map<Seq<char>, Seq<u64>>,
    channel: Seq<char>,
    id: u64,
    c: Seq<char>,
    x: u64,
)
    ensures
        routed(unroute(routes, channel, id), c, x) <==> routed(routes, c, x) && !(c == channel && x
            == id),
{
    if routes.dom().contains(channel) {
        lemma_without_id_members(routes[channel], id, x);
        let rest = without_id(routes[channel], id);
        if rest.len() == 0 {
            if rest.contains(x) {
                let j = choose|j: int| 0 <= j < rest.len() && rest[j] == x;
            }
        }
    }
}

/// What unrouting a destination from a list of channels does to the table:
/// the destination is no longer listed for any of these channels, and every
/// other listing is as it was.
pub proof fn lemma_unroute_all(
    routes: Map<Seq<char>, Seq<u64>>,
    channels: Seq<Seq<char>>,
    id: u64,
    c: Seq<char>,
    x: u64,
)
    ensures
        routed(unroute_all(routes, channels, id), c, x) <==> routed(routes, c, x) && !(
        channels.contains(c) && x == id),
    decreases channels.len(),
{
    if channels.len() > 0 {
        let head = channels.drop_last();
        lemma_unroute_all(routes, head, id, c, x);
        lemma_unroute(unroute_all(routes, head, id), channels.last(), id, c, x);
        if head.contains(c) {
            let i = choose|i: int| 0 <= i < head.len() && head[i] == c;
            assert(channels[i] == c);
        }
        if channels.last() == c {
            assert(channels[channels.len() - 1] == c);
        }
        if channels.contains(c) && channels.last() != c {
            let i = choose|i: int| 0 <= i < channels.len() && channels[i] == c;
            assert(head[i] == c);
        }
    }
}

/// The id and the address of each destination of a list.
pub open spec fn pairs(ds: Seq<DestinationView>) -> Seq<(u64, Seq<char>)> {
    ds.map_values(|d: DestinationView| (d.id, d.host))
}

/// The invariant of a sender's state: no two destinations share an address
/// or an id, and every id in use is below the next one to be given.
pub open spec fn sender_wf(v: SenderView) -> bool {
    &&& distinct_destinations(v)
    &&& routes_match(v.routes, v.destinations)
}

/// No two destinations share an address or an id, and every id in use is
/// below the next one to be given.
pub open spec fn distinct_destinations(v: SenderView) -> bool {
    &&& hosts(v.destinations).no_duplicates()
    &&& ids(v.destinations).no_duplicates()
    &&& forall|i: int| 0 <= i < v.destinations.len() ==> (#[trigger] v.destinations[i]).id < v.next_id
}

/// The routing table and the destinations say the same: a destination is
/// listed for a channel exactly if it is known and has the channel.
pub open spec fn routes_match(routes: Map<Seq<char>, Seq<u64>>, ds: Seq<DestinationView>) -> bool {
    forall|c: Seq<char>, id: u64| #[trigger] routed(routes, c, id) <==> #[trigger] serves(ds, id, c)
}

/// After a destination failed, the routing table lists it for no channel.
pub proof fn lemma_failed_is_unrouted(v: SenderView, i: int, c: Seq<char>)
    requires
        sender_wf(v),
        0 <= i < v.destinations.len(),
    ensures
        !routed(
            unroute_all(v.routes, v.destinations[i].channels, v.destinations[i].id),
            c,
            v.destinations[i].id,
        ),
{
    let d = v.destinations[i];
    lemma_unroute_all(v.routes, d.channels, d.id, c, d.id);
    if routed(v.routes, c, d.id) {
        assert(serves(v.destinations, d.id, c));
        let j = choose|j: int|
            0 <= j < v.destinations.len() && (#[trigger] v.destinations[j]).id == d.id
                && v.destinations[j].channels.contains(c);
        assert(ids(v.destinations)[j] == ids(v.destinations)[i]);
    }
}

/// Forgetting a destination that failed keeps the invariant.
pub proof fn lemma_failed_wf(v: SenderView, i: int)
    requires
        sender_wf(v),
        0 <= i < v.destinations.len(),
    ensures
        sender_wf(
            SenderView {
                routes: unroute_all(v.routes, v.destinations[i].channels, v.destinations[i].id),
                destinations: v.destinations.remove(i),
                ..v
            },
        ),
{
    let d = v.destinations[i];
    let was = v.destinations;
    let now = was.remove(i);
    let table = unroute_all(v.routes, d.channels, d.id);
    assert(hosts(now) =~= hosts(was).remove(i));
    assert(ids(now) =~= ids(was).remove(i));
    assert forall|a: int, b: int| 0 <= a < b < now.len() implies hosts(now)[a] != hosts(now)[b] by {
        let a2 = if a < i { a } else { a + 1 };
        let b2 = if b < i { b } else { b + 1 };
        assert(hosts(now)[a] == hosts(was)[a2] && hosts(now)[b] == hosts(was)[b2]);
    }
    assert forall|a: int, b: int| 0 <= a < b < now.len() implies ids(now)[a] != ids(now)[b] by {
        let a2 = if a < i { a } else { a + 1 };
        let b2 = if b < i { b } else { b + 1 };
        assert(ids(now)[a] == ids(was)[a2] && ids(now)[b] == ids(was)[b2]);
    }
    assert forall|a: int| 0 <= a < now.len() implies (#[trigger] now[a]).id < v.next_id by {
        let a2 = if a < i { a } else { a + 1 };
        assert(now[a] == was[a2]);
    }
    assert forall|c: Seq<char>, x: u64| #[trigger]
        routed(table, c, x) <==> #[trigger] serves(now, x, c) by {
        lemma_unroute_all(v.routes, d.channels, d.id, c, x);
        lemma_failed_is_unrouted(v, i, c);
        if routed(table, c, x) {
            assert(serves(was, x, c));
            let j = choose|j: int|
                0 <= j < was.len() && (#[trigger] was[j]).id == x && was[j].channels.contains(c);
            assert(j != i);
            let j2 = if j < i { j } else { j - 1 };
            assert(now[j2] == was[j]);
        }
        if serves(now, x, c) {
            let j = choose|j: int|
                0 <= j < now.len() && (#[trigger] now[j]).id == x && now[j].channels.contains(c);
            let j2 = if j < i { j } else { j + 1 };
            assert(was[j2] == now[j]);
            assert(serves(was, x, c));
            assert(ids(was)[j2] == x);
            assert(x != d.id) by {
                if x == d.id {
                    assert(ids(was)[i] == x);
                }
            }
        }
    }
}

/// Marking a destination live keeps the invariant.
pub proof fn lemma_connected_wf(v: SenderView, i: int)
    requires
        sender_wf(v),
        0 <= i < v.destinations.len(),
    ensures
        sender_wf(
            SenderView {
                destinations: v.destinations.update(
                    i,
                    DestinationView { live: true, ..v.destinations[i] },
                ),
                ..v
            },
        ),
{
    let was = v.destinations;
    let now = was.update(i, DestinationView { live: true, ..was[i] });
    assert(hosts(now) =~= hosts(was));
    assert(ids(now) =~= ids(was));
    assert forall|c: Seq<char>, x: u64| #[trigger]
        routed(v.routes, c, x) <==> #[trigger] serves(now, x, c) by {
        if serves(was, x, c) {
            let j = choose|j: int|
                0 <= j < was.len() && (#[trigger] was[j]).id == x && was[j].channels.contains(c);
            assert(now[j].id == x && now[j].channels.contains(c));
        }
        if serves(now, x, c) {
            let j = choose|j: int|
                0 <= j < now.len() && (#[trigger] now[j]).id == x && now[j].channels.contains(c);
            assert(was[j].id == x && was[j].channels.contains(c));
        }
    }
}

/// Adding one route keeps the table and the destinations in step: the
/// destination at `i` gains the channel, or is new with just this channel.
proof fn lemma_route_added(
    routes: Map<Seq<char>, Seq<u64>>,
    ds: Seq<DestinationView>,
    es: Seq<DestinationView>,
    channel: Seq<char>,
    id: u64,
    i: int,
)
    requires
        routes_match(routes, ds),
        0 <= i <= ds.len(),
        es.len() == if i < ds.len() {
            ds.len()
        } else {
            ds.len() + 1
        },
        forall|j: int| 0 <= j < ds.len() && j != i ==> es[j] == ds[j],
        es[i].id == id,
        i < ds.len() ==> ds[i].id == id && es[i].channels == ds[i].channels.push(channel),
        i == ds.len() ==> es[i].channels == seq![channel],
        forall|j: int| 0 <= j < ds.len() && j != i ==> (#[trigger] ds[j]).id != id,
    ensures
        routes_match(routes.insert(channel, with_route(routes, channel, id)), es),
{
    let table = routes.insert(channel, with_route(routes, channel, id));
    let route = with_route(routes, channel, id);
    assert(route[route.len() - 1] == id);
    assert forall|c: Seq<char>, x: u64| #[trigger]
        routed(table, c, x) <==> #[trigger] serves(es, x, c) by {
        if routed(table, c, x) && !(c == channel && x == id) {
            if c == channel {
                let k = choose|k: int| 0 <= k < route.len() && route[k] == x;
                assert(table[c] == route);
                if !routes.dom().contains(channel) {
                    assert(route[0] == id);
                }
                assert(routes.dom().contains(channel));
                assert(k < route.len() - 1);
                assert(routes[channel][k] == x);
                assert(routes[channel].contains(x));
                assert(routed(routes, c, x));
            } else {
                assert(table.dom().contains(c));
                assert(routes.dom().contains(c));
                assert(table[c] == routes[c]);
                assert(routed(routes, c, x));
            }
            assert(serves(ds, x, c));
            let j = choose|j: int|
                0 <= j < ds.len() && (#[trigger] ds[j]).id == x && ds[j].channels.contains(c);
            if j == i {
                let k = choose|k: int| 0 <= k < ds[j].channels.len() && ds[j].channels[k] == c;
                assert(es[j].channels[k] == c);
            }
            assert(es[j].id == x && es[j].channels.contains(c));
        }
        if c == channel && x == id {
            assert(es[i].channels[es[i].channels.len() - 1] == channel);
            assert(es[i].id == x && es[i].channels.contains(c));
        }
        if serves(es, x, c) && !(c == channel && x == id) {
            let j = choose|j: int|
                0 <= j < es.len() && (#[trigger] es[j]).id == x && es[j].channels.contains(c);
            if j == i {
                let k = choose|k: int| 0 <= k < es[j].channels.len() && es[j].channels[k] == c;
                assert(c != channel);
                assert(i < ds.len());
                assert(ds[j].channels[k] == c);
            }
            assert(ds[j].id == x && ds[j].channels.contains(c));
            assert(serves(ds, x, c));
            assert(routed(routes, c, x));
            if c == channel {
                let k = choose|k: int| 0 <= k < routes[c].len() && routes[c][k] == x;
                assert(route[k] == x);
            }
        }
    }
}

/// A routing update keeps the invariant.
pub proof fn lemma_route_one_wf(v: SenderView, channel: Seq<char>, host: Seq<char>)
    requires
        sender_wf(v),
    ensures
        sender_wf(route_one(v, channel, host)),
        route_one(v, channel, host).outbox == v.outbox,
        pairs(route_one(v, channel, host).destinations) == if !hosts(v.destinations).contains(host)
            && v.next_id != u64::MAX {
            pairs(v.destinations).push((v.next_id, host))
        } else {
            pairs(v.destinations)
        },
{
    let w = route_one(v, channel, host);
    let ds = v.destinations;
    let es = w.destinations;
    if hosts(ds).contains(host) {
        let i = hosts(ds).index_of(host);
        if !ds[i].channels.contains(channel) {
            assert(hosts(es) =~= hosts(ds));
            assert(ids(es) =~= ids(ds));
            assert(pairs(es) =~= pairs(ds));
            assert forall|j: int| 0 <= j < ds.len() && j != i implies (#[trigger] ds[j]).id
                != ds[i].id by {
                assert(ids(ds)[j] == ds[j].id && ids(ds)[i] == ds[i].id);
            }
            lemma_route_added(v.routes, ds, es, channel, ds[i].id, i);
        }
    } else if v.next_id != u64::MAX {
        assert forall|j: int| 0 <= j < ds.len() implies (#[trigger] ds[j]).id != v.next_id by {}
        lemma_route_added(v.routes, ds, es, channel, v.next_id, ds.len() as int);
        assert(hosts(es) =~= hosts(ds).push(host));
        assert(ids(es) =~= ids(ds).push(v.next_id));
        assert(pairs(es) =~= pairs(ds).push((v.next_id, host)));
        assert forall|i: int, j: int| 0 <= i < j < es.len() implies hosts(es)[i] != hosts(es)[j] by {
            if j == ds.len() {
                assert(hosts(ds)[i] == hosts(es)[i]);
            } else {
                assert(hosts(ds)[i] == hosts(es)[i] && hosts(ds)[j] == hosts(es)[j]);
            }
        }
        assert forall|i: int, j: int| 0 <= i < j < es.len() implies ids(es)[i] != ids(es)[j] by {
            if j == ds.len() {
                assert(ds[i].id < v.next_id);
            } else {
                assert(ids(ds)[i] == ids(es)[i] && ids(ds)[j] == ids(es)[j]);
            }
        }
    }
}

} // verus!
