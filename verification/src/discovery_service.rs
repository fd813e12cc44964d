//! The discovery protocol: what a server and a client do with each message
//! they receive. Reading and writing the connection is left to the caller;
//! the functions here take a message and say what to answer.
use crate::messages::{
    channel_views, Channel, ChannelView, DiscoveryMessage, DiscoveryMessageView, DiscoveryState,
};
use crate::messages::channels_named;
use crate::registry::{
    contributed_after, key_set, lemma_reg_merge, merge_channels, reg_merge, reg_remove_all,
    registry_after, registry_wf, ChannelRegistry,
};
use crate::uri::{uri_parts, Uri, UriParts};
use rand::rngs::SmallRng;
use rand::Rng;
use vstd::prelude::*;
use vstd::string::StringExecFns;

verus! {

/// Seconds a client waits before it connects again after a failure.
pub const RECONNECT_SECS: u64 = 5;

/// Milliseconds between two looks for the port that discovery assigned.
pub const PORT_POLL_MILLIS: u64 = 100;

/// Seconds a client waits before it announces its channels again.
pub const REANNOUNCE_SECS: u64 = 10;

/// The lowest port that the server assigns.
pub const PORT_MIN: u16 = 1024;

/// The ports that the server assigns are below this one.
pub const PORT_END: u16 = 65535;

/// The address that a client gives as its origin.
pub open spec fn local_address_text() -> Seq<char> {
    "tcp://127.0.0.1:0"@
}

/// Makes `rand::rngs::SmallRng` known to the verifier, as a value of which
/// nothing is seen.
#[verifier::external_type_specification]
#[verifier::external_body]
pub struct ExSmallRng(SmallRng);

/// Calls `Rng::gen_range` on the generator, which panics unless the lower
/// bound is below the upper one. Trusted: the number drawn is at least the
/// lower bound and below the upper one. Which number it is depends on the
/// generator's state, of which nothing is said.
#[verifier::external_body]
fn random_between(rng: &mut SmallRng, low: u16, high: u16) -> (n: u16)
    requires
        low < high,
    ensures
        low <= n < high,
{
    rng.gen_range(low, high)
}

// ---------------------------------------------------------------------------
// Decimal numbers in address texts
// ---------------------------------------------------------------------------
/// The character of a decimal digit.
pub open spec fn digit_char(d: nat) -> char {
    if d == 0 {
        '0'
    } else if d == 1 {
        '1'
    } else if d == 2 {
        '2'
    } else if d == 3 {
        '3'
    } else if d == 4 {
        '4'
    } else if d == 5 {
        '5'
    } else if d == 6 {
        '6'
    } else if d == 7 {
        '7'
    } else if d == 8 {
        '8'
    } else {
        '9'
    }
}

/// A number in decimal, without leading zeros.
pub open spec fn decimal(n: nat) -> Seq<char>
    decreases n,
{
    if n < 10 {
        seq![digit_char(n)]
    } else {
        decimal(n / 10).push(digit_char(n % 10))
    }
}

/// The text of one decimal digit.
fn digit_str(d: u16) -> (r: &'static str)
    requires
        d < 10,
    ensures
        r@ == seq![digit_char(d as nat)],
{
    proof {
        reveal_strlit("0");
        reveal_strlit("1");
        reveal_strlit("2");
        reveal_strlit("3");
        reveal_strlit("4");
        reveal_strlit("5");
        reveal_strlit("6");
        reveal_strlit("7");
        reveal_strlit("8");
        reveal_strlit("9");
    }
    let r = if d == 0 {
        "0"
    } else if d == 1 {
        "1"
    } else if d == 2 {
        "2"
    } else if d == 3 {
        "3"
    } else if d == 4 {
        "4"
    } else if d == 5 {
        "5"
    } else if d == 6 {
        "6"
    } else if d == 7 {
        "7"
    } else if d == 8 {
        "8"
    } else {
        "9"
    };
    assert(r@ =~= seq![digit_char(d as nat)]);
    r
}

/// Writes a port number in decimal.
pub fn port_text(n: u16) -> (r: String)
    ensures
        r@ == decimal(n as nat),
    decreases n,
{
    if n < 10 {
        digit_str(n).to_owned()
    } else {
        let mut s = port_text(n / 10);
        s.append(digit_str(n % 10));
        assert(s@ =~= decimal(n as nat));
        s
    }
}

/// The text of an address with a port: `scheme://netloc:port` followed by
/// the path.
pub open spec fn address_text(
    scheme: Seq<char>,
    netloc: Seq<char>,
    path: Seq<char>,
    port: u16,
) -> Seq<char> {
    scheme + seq![':', '/', '/'] + netloc + seq![':'] + decimal(port as nat) + path
}

/// The text of an address made of the given parts and a port.
pub open spec fn with_port(parts: UriParts, port: u16) -> Seq<char> {
    address_text(parts.scheme, parts.netloc, parts.path, port)
}

/// Writes the text of an address with a port.
pub fn origin_with_port(scheme: &str, netloc: &str, path: &str, port: u16) -> (text: String)
    ensures
        text@ == address_text(scheme@, netloc@, path@, port),
{
    proof {
        reveal_strlit("://");
        reveal_strlit(":");
    }
    let mut text = scheme.to_owned();
    text.append("://");
    text.append(netloc);
    text.append(":");
    let digits = port_text(port);
    text.append(digits.as_str());
    text.append(path);
    assert(text@ =~= address_text(scheme@, netloc@, path@, port));
    text
}

/// The origin that a server sends back to a client that connects: the
/// client's own origin if it names a port, else that origin with `port`.
pub open spec fn connect_origin(origin: Seq<char>, port: u16) -> Seq<char> {
    if uri_parts(origin).port.is_some() {
        origin
    } else {
        with_port(uri_parts(origin), port)
    }
}

// ---------------------------------------------------------------------------
// The server
// ---------------------------------------------------------------------------
/// Whether `reply` answers a `Connect` from `origin`: the state is
/// `ConnectResponse`, no channels are listed, and the origin is the client's
/// own if it names a port, else the client's with some port from `PORT_MIN`
/// up to but not including `PORT_END`.
pub open spec fn answers_connect(reply: DiscoveryMessageView, origin: Seq<char>) -> bool {
    exists|port: u16|
        PORT_MIN <= port < PORT_END && reply == (DiscoveryMessageView {
            state: DiscoveryState::ConnectResponse,
            uri: #[trigger] connect_origin(origin, port),
            channels: Seq::empty(),
        })
}

/// The answer to a `Connect`, for a given candidate port: the state is
/// `ConnectResponse`, no channels are listed, and the origin is the client's
/// own if it names a port, else the client's with `port` put in.
pub fn connect_response(msg: &DiscoveryMessage, port: u16) -> (reply: DiscoveryMessage)
    ensures
        reply@ == (DiscoveryMessageView {
            state: DiscoveryState::ConnectResponse,
            uri: connect_origin(msg.uri@, port),
            channels: Seq::empty(),
        }),
{
    let uri = match msg.uri.port() {
        Some(_) => msg.uri.clone(),
        None => {
            let text = origin_with_port(msg.uri.scheme(), msg.uri.netloc(), msg.uri.path(), port);
            Uri::parse(text.as_str())
        },
    };
    let reply = DiscoveryMessage {
        state: DiscoveryState::ConnectResponse,
        uri,
        channels: Vec::new(),
    };
    assert(reply@.channels =~= Seq::empty());
    reply
}

/// The state that a discovery server keeps for one connection: the channels
/// that this connection has announced.
pub struct DiscoveryServer {
    local: ChannelRegistry,
}

impl DiscoveryServer {
    /// The channels that this connection has contributed to the registry.
    pub closed spec fn contributed(&self) -> Seq<ChannelView> {
        self.local@
    }

    /// The invariant of the connection's state: no two of the channels it
    /// contributed have the same key, and each has a name.
    pub open spec fn wf(&self) -> bool {
        registry_wf(self.contributed())
    }

    /// The state of a connection that has announced nothing yet.
    pub fn new() -> (s: Self)
        ensures
            s.wf(),
            s.contributed() == Seq::<ChannelView>::empty(),
    {
        DiscoveryServer { local: ChannelRegistry::new() }
    }

    /// Answers a `Connect`. A client whose origin names no port is assigned
    /// one, drawn at random from `PORT_MIN` up to but not including
    /// `PORT_END`; no check is made that the port is free. A client whose
    /// origin names a port gets its origin back unchanged.
    pub fn on_connect(&self, msg: &DiscoveryMessage, rng: &mut SmallRng) -> (reply:
        DiscoveryMessage)
        ensures
            answers_connect(reply@, msg.uri@),
    {
        match msg.uri.port() {
            Some(_) => {
                let reply = connect_response(msg, PORT_MIN);
                assert(reply@.uri == connect_origin(msg.uri@, PORT_MIN));
                reply
            },
            None => {
                let port = random_between(rng, PORT_MIN, PORT_END);
                let reply = connect_response(msg, port);
                assert(reply@.uri == connect_origin(msg.uri@, port));
                reply
            },
        }
    }

    /// Answers a `QueueData`: the channels of the message are added to those
    /// that this connection contributed, all of these are merged into the
    /// registry, and the answer lists the whole registry.
    pub fn on_queue_data(&mut self, msg: &DiscoveryMessage, registry: &mut ChannelRegistry) -> (reply:
        DiscoveryMessage)
        requires
            old(self).wf(),
            old(registry).wf(),
            msg.wf(),
        ensures
            final(self).wf(),
            final(registry).wf(),
            final(self).contributed() == contributed_after(old(self).contributed(), msg@.channels),
            final(registry)@ == registry_after(
                old(registry)@,
                old(self).contributed(),
                msg@.channels,
            ),
            reply@ == (DiscoveryMessageView {
                state: DiscoveryState::QueueData,
                uri: msg.uri@,
                channels: final(registry)@,
            }),
    {
        self.local.merge(&msg.channels);
        let mine = self.local.snapshot();
        registry.merge(&mine);
        DiscoveryMessage {
            state: DiscoveryState::QueueData,
            uri: msg.uri.clone(),
            channels: registry.snapshot(),
        }
    }

    /// What the server does with one message: it answers `Connect` and
    /// `QueueData`; `ConnectResponse` and `Error` are ignored, with no answer
    /// and no change.
    pub fn handle(
        &mut self,
        msg: &DiscoveryMessage,
        registry: &mut ChannelRegistry,
        rng: &mut SmallRng,
    ) -> (reply: Option<DiscoveryMessage>)
        requires
            old(self).wf(),
            old(registry).wf(),
            msg.wf(),
        ensures
            final(self).wf(),
            final(registry).wf(),
            match msg.state {
                DiscoveryState::Connect => {
                    &&& final(self).contributed() == old(self).contributed()
                    &&& final(registry)@ == old(registry)@
                    &&& reply matches Some(r) && answers_connect(r@, msg.uri@)
                },
                DiscoveryState::QueueData => {
                    &&& final(self).contributed() == contributed_after(
                        old(self).contributed(),
                        msg@.channels,
                    )
                    &&& final(registry)@ == registry_after(
                        old(registry)@,
                        old(self).contributed(),
                        msg@.channels,
                    )
                    &&& reply matches Some(r) && r@ == (DiscoveryMessageView {
                        state: DiscoveryState::QueueData,
                        uri: msg.uri@,
                        channels: final(registry)@,
                    })
                },
                _ => {
                    &&& final(self).contributed() == old(self).contributed()
                    &&& final(registry)@ == old(registry)@
                    &&& reply.is_none()
                },
            },
    {
        match msg.state {
            DiscoveryState::Connect => Some(self.on_connect(msg, rng)),
            DiscoveryState::QueueData => Some(self.on_queue_data(msg, registry)),
            DiscoveryState::ConnectResponse => None,
            DiscoveryState::Error => None,
        }
    }

    /// What the server does when the connection fails: every channel that the
    /// connection contributed leaves the registry.
    pub fn on_disconnect(&self, registry: &mut ChannelRegistry)
        requires
            self.wf(),
            old(registry).wf(),
        ensures
            final(registry).wf(),
            final(registry)@ == reg_remove_all(old(registry)@, self.contributed()),
    {
        let mine = self.local.snapshot();
        registry.remove_all(&mine);
    }
}

// ---------------------------------------------------------------------------
// The client
// ---------------------------------------------------------------------------
/// The state with which a client answers a message in a given state.
pub open spec fn next_state(state: DiscoveryState) -> DiscoveryState {
    match state {
        DiscoveryState::Error => DiscoveryState::Connect,
        DiscoveryState::Connect => DiscoveryState::ConnectResponse,
        DiscoveryState::ConnectResponse => DiscoveryState::QueueData,
        DiscoveryState::QueueData => DiscoveryState::QueueData,
    }
}

/// The address that a client gives as its origin: `tcp://127.0.0.1:0`.
pub fn local_address() -> (r: Uri)
    ensures
        r@ == local_address_text(),
{
    Uri::parse("tcp://127.0.0.1:0")
}

/// The channels that a client announces in answer to a message: its own,
/// and on a `QueueData` also those of the message that it did not have.
pub open spec fn announced(msg: DiscoveryMessageView, channels: Seq<ChannelView>) -> Seq<
    ChannelView,
> {
    if msg.state == DiscoveryState::QueueData {
        reg_merge(channels, msg.channels)
    } else {
        channels
    }
}

/// The keys that a client announces in answer to a `QueueData` are its own
/// together with those of the message; in any other answer they are its own.
pub proof fn lemma_announced_keys(msg: DiscoveryMessageView, channels: Seq<ChannelView>)
    ensures
        key_set(announced(msg, channels)) == if msg.state == DiscoveryState::QueueData {
            key_set(channels).union(key_set(msg.channels))
        } else {
            key_set(channels)
        },
{
    lemma_reg_merge(channels, msg.channels);
}

/// The message with which a client answers `msg`, given the channels it
/// has. The answer to a `QueueData` lists the client's channels merged with
/// those of the message; any other answer lists the client's channels.
pub fn process_msg(msg: &DiscoveryMessage, channels: Vec<Channel>) -> (reply: DiscoveryMessage)
    ensures
        reply@ == (DiscoveryMessageView {
            state: next_state(msg.state),
            uri: local_address_text(),
            channels: announced(msg@, channel_views(channels@)),
        }),
{
    let mut channels = channels;
    let state = match msg.state {
        DiscoveryState::Error => DiscoveryState::Connect,
        DiscoveryState::Connect => DiscoveryState::ConnectResponse,
        DiscoveryState::ConnectResponse => DiscoveryState::QueueData,
        DiscoveryState::QueueData => {
            merge_channels(&mut channels, &msg.channels);
            DiscoveryState::QueueData
        },
    };
    DiscoveryMessage { state, uri: local_address(), channels }
}

/// What a client does after it received a message.
pub struct ClientStep {
    /// The message to send to the server.
    pub reply: DiscoveryMessage,
    /// The channels to hand to the transport sender as a routing update, when
    /// the reply is a `QueueData`; else the client waits `REANNOUNCE_SECS`.
    pub routing: Option<Vec<Channel>>,
    /// The port to listen on, when the message was a `ConnectResponse` whose
    /// origin names one.
    pub listen_port: Option<u16>,
    /// The seconds to wait before the reply is sent: `REANNOUNCE_SECS` before
    /// a `QueueData`, none before any other reply.
    pub pause_secs: u64,
}

/// The state of a discovery client: its view of the channels that exist.
pub struct DiscoveryClient {
    local: ChannelRegistry,
}

impl DiscoveryClient {
    /// The channels that the client knows: its own, and those that the server
    /// has told it of.
    pub closed spec fn known(&self) -> Seq<ChannelView> {
        self.local@
    }

    /// The invariant of the client's state: no two of the channels it knows
    /// have the same key, and each has a name.
    pub open spec fn wf(&self) -> bool {
        registry_wf(self.known())
    }

    /// A client that knows the channels of its own service.
    pub fn new(channels: &Vec<Channel>) -> (c: Self)
        requires
            channels_named(channel_views(channels@)),
        ensures
            c.wf(),
            c.known() == reg_merge(Seq::empty(), channel_views(channels@)),
    {
        let mut local = ChannelRegistry::new();
        local.merge(channels);
        DiscoveryClient { local }
    }

    /// The message with which the client opens a connection: a `Connect`
    /// from its own address, with every channel it knows.
    pub fn hello(&self) -> (msg: DiscoveryMessage)
        ensures
            msg@ == (DiscoveryMessageView {
                state: DiscoveryState::Connect,
                uri: local_address_text(),
                channels: self.known(),
            }),
    {
        DiscoveryMessage {
            state: DiscoveryState::Connect,
            uri: local_address(),
            channels: self.local.snapshot(),
        }
    }

    /// What the client does with one message. On `QueueData` the channels of
    /// the message are first merged into what the client knows. The reply
    /// lists everything the client knows; when it is a `QueueData`, the same
    /// list is the routing update for the transport.
    pub fn on_message(&mut self, msg: &DiscoveryMessage) -> (step: ClientStep)
        requires
            old(self).wf(),
            msg.wf(),
        ensures
            final(self).wf(),
            final(self).known() == announced(msg@, old(self).known()),
            step.reply@ == (DiscoveryMessageView {
                state: next_state(msg.state),
                uri: local_address_text(),
                channels: final(self).known(),
            }),
            match step.routing {
                Some(update) => next_state(msg.state) == DiscoveryState::QueueData
                    && channel_views(update@) == final(self).known(),
                None => next_state(msg.state) != DiscoveryState::QueueData,
            },
            step.listen_port == if msg.state == DiscoveryState::ConnectResponse {
                uri_parts(msg.uri@).port
            } else {
                None
            },
            step.pause_secs == if next_state(msg.state) == DiscoveryState::QueueData {
                REANNOUNCE_SECS
            } else {
                0
            },
    {
        let listen_port = match msg.state {
            DiscoveryState::ConnectResponse => msg.uri.port(),
            _ => None,
        };
        let reply = process_msg(msg, self.local.snapshot());
        match msg.state {
            DiscoveryState::QueueData => { self.local.merge(&msg.channels); },
            _ => {},
        }
        let routing = match reply.state {
            DiscoveryState::QueueData => Some(self.local.snapshot()),
            _ => None,
        };
        let pause_secs = match reply.state {
            DiscoveryState::QueueData => REANNOUNCE_SECS,
            _ => 0,
        };
        ClientStep { reply, routing, listen_port, pause_secs }
    }
}

} // verus!
