//! The messages exchanged by services: channel descriptors, discovery
//! messages and queue messages, each with its mathematical view.
use crate::order::{
    compare_number, compare_numbers, compare_text, compare_texts, first_of, lemma_compare_equal,
    Order,
};
use crate::text::lemma_same_bytes;
use crate::uri::Uri;
use std::cmp::Ordering;
use vstd::prelude::*;
use vstd::std_specs::cmp::{PartialEqSpecImpl, PartialOrdSpecImpl};
use vstd::utf8::encode_utf8;

verus! {

/// The name of a channel: it identifies a logical topic.
pub type ChannelId = String;

/// The four states of the discovery protocol.
#[derive(Copy, Clone, PartialEq, Eq, Debug, Structural)]
pub enum DiscoveryState {
    Connect,
    ConnectResponse,
    QueueData,
    Error,
}

/// Direction of a channel, seen from the service that registers it.
#[derive(Copy, Clone, PartialEq, Eq, Debug, Structural)]
pub enum ChannelType {
    Input,
    Output,
}

/// How the payloads of a channel are serialised.
#[derive(Copy, Clone, PartialEq, Eq, Debug, Structural)]
pub enum MsgFormat {
    Bincode,
    MsgPack,
    Json,
}

impl DiscoveryState {
    /// The byte that stands for a state on the wire.
    pub open spec fn tag(self) -> u8 {
        match self {
            DiscoveryState::Connect => 1,
            DiscoveryState::ConnectResponse => 2,
            DiscoveryState::QueueData => 3,
            DiscoveryState::Error => 255,
        }
    }

    /// The state that a wire byte stands for, if any.
    pub open spec fn of_tag(b: u8) -> Option<DiscoveryState> {
        if b == 1 {
            Some(DiscoveryState::Connect)
        } else if b == 2 {
            Some(DiscoveryState::ConnectResponse)
        } else if b == 3 {
            Some(DiscoveryState::QueueData)
        } else if b == 255 {
            Some(DiscoveryState::Error)
        } else {
            None
        }
    }

    /// The byte that stands for the state on the wire.
    pub fn to_u8(self) -> (b: u8)
        ensures
            b == self.tag(),
            Self::of_tag(b) == Some(self),
    {
        match self {
            DiscoveryState::Connect => 1,
            DiscoveryState::ConnectResponse => 2,
            DiscoveryState::QueueData => 3,
            DiscoveryState::Error => 255,
        }
    }

    /// The state that a wire byte stands for; `None` for any other byte.
    pub fn from_u8(b: u8) -> (r: Option<DiscoveryState>)
        ensures
            r == Self::of_tag(b),
            r matches Some(s) ==> s.tag() == b,
    {
        if b == 1 {
            Some(DiscoveryState::Connect)
        } else if b == 2 {
            Some(DiscoveryState::ConnectResponse)
        } else if b == 3 {
            Some(DiscoveryState::QueueData)
        } else if b == 255 {
            Some(DiscoveryState::Error)
        } else {
            None
        }
    }
}

impl ChannelType {
    /// The byte that stands for a direction on the wire.
    pub open spec fn tag(self) -> u8 {
        match self {
            ChannelType::Input => 0,
            ChannelType::Output => 1,
        }
    }

    /// The direction that a wire byte stands for, if any.
    pub open spec fn of_tag(b: u8) -> Option<ChannelType> {
        if b == 0 {
            Some(ChannelType::Input)
        } else if b == 1 {
            Some(ChannelType::Output)
        } else {
            None
        }
    }

    /// The byte that stands for the direction on the wire.
    pub fn to_u8(self) -> (b: u8)
        ensures
            b == self.tag(),
            Self::of_tag(b) == Some(self),
    {
        match self {
            ChannelType::Input => 0,
            ChannelType::Output => 1,
        }
    }

    /// The direction that a wire byte stands for; `None` for any other byte.
    pub fn from_u8(b: u8) -> (r: Option<ChannelType>)
        ensures
            r == Self::of_tag(b),
            r matches Some(s) ==> s.tag() == b,
    {
        if b == 0 {
            Some(ChannelType::Input)
        } else if b == 1 {
            Some(ChannelType::Output)
        } else {
            None
        }
    }
}

impl MsgFormat {
    /// The byte that stands for a format on the wire.
    pub open spec fn tag(self) -> u8 {
        match self {
            MsgFormat::Bincode => 0,
            MsgFormat::MsgPack => 1,
            MsgFormat::Json => 2,
        }
    }

    /// The format that a wire byte stands for, if any.
    pub open spec fn of_tag(b: u8) -> Option<MsgFormat> {
        if b == 0 {
            Some(MsgFormat::Bincode)
        } else if b == 1 {
            Some(MsgFormat::MsgPack)
        } else if b == 2 {
            Some(MsgFormat::Json)
        } else {
            None
        }
    }

    /// The byte that stands for the format on the wire.
    pub fn to_u8(self) -> (b: u8)
        ensures
            b == self.tag(),
            Self::of_tag(b) == Some(self),
    {
        match self {
            MsgFormat::Bincode => 0,
            MsgFormat::MsgPack => 1,
            MsgFormat::Json => 2,
        }
    }

    /// The format that a wire byte stands for; `None` for any other byte.
    pub fn from_u8(b: u8) -> (r: Option<MsgFormat>)
        ensures
            r == Self::of_tag(b),
            r matches Some(s) ==> s.tag() == b,
    {
        if b == 0 {
            Some(MsgFormat::Bincode)
        } else if b == 1 {
            Some(MsgFormat::MsgPack)
        } else if b == 2 {
            Some(MsgFormat::Json)
        } else {
            None
        }
    }
}

/// The addresses of a channel, each by its text.
pub open spec fn address_texts(addresses: Seq<Uri>) -> Seq<Seq<char>> {
    addresses.map_values(|a: Uri| a@)
}

/// What a channel is, in full: every field, addresses by their texts.
pub struct ChannelView {
    pub name: Seq<char>,
    pub instance: u64,
    pub channel_type: ChannelType,
    pub encoding_type: MsgFormat,
    pub addresses: Seq<Seq<char>>,
}

/// A named, typed logical data stream with a direction. Its addresses may be
/// empty while it is not yet resolved.
#[derive(Debug)]
pub struct Channel {
    pub name: ChannelId,
    pub instance: u64,
    pub channel_type: ChannelType,
    pub encoding_type: MsgFormat,
    pub addresses: Vec<Uri>,
}

impl View for Channel {
    type V = ChannelView;

    open spec fn view(&self) -> ChannelView {
        ChannelView {
            name: self.name@,
            instance: self.instance,
            channel_type: self.channel_type,
            encoding_type: self.encoding_type,
            addresses: address_texts(self.addresses@),
        }
    }
}

/// Two channels are equal when their names are: the other fields take no part.
impl PartialEq for Channel {
    fn eq(&self, other: &Channel) -> (r: bool) {
        self.name == other.name
    }
}

impl PartialEqSpecImpl for Channel {
    open spec fn obeys_eq_spec() -> bool {
        true
    }

    open spec fn eq_spec(&self, other: &Channel) -> bool {
        self.name@ == other.name@
    }
}

impl Eq for Channel {

}

/// What identifies a channel among others: its name, its direction and its
/// instance.
pub type ChannelKey = (Seq<char>, ChannelType, u64);

/// The key of a channel.
pub open spec fn key_of(c: ChannelView) -> ChannelKey {
    (c.name, c.channel_type, c.instance)
}

/// How two channels compare: by name, then by direction, `Input` first, then
/// by instance.
pub open spec fn channel_order(a: ChannelView, b: ChannelView) -> Order {
    first_of(
        compare_texts(a.name, b.name),
        first_of(
            compare_numbers(a.channel_type.tag() as int, b.channel_type.tag() as int),
            compare_numbers(a.instance as int, b.instance as int),
        ),
    )
}

/// The order as a value of the standard library.
pub open spec fn as_ordering(o: Order) -> Ordering {
    match o {
        Order::Less => Ordering::Less,
        Order::Equal => Ordering::Equal,
        Order::Greater => Ordering::Greater,
    }
}

/// Two channels compare equal exactly if they have the same key: the order
/// tells apart what equality, which goes by the name alone, does not.
pub proof fn lemma_channel_order_equal(a: ChannelView, b: ChannelView)
    ensures
        channel_order(a, b) == Order::Equal <==> key_of(a) == key_of(b),
{
    lemma_compare_equal(encode_utf8(a.name), encode_utf8(b.name));
    if encode_utf8(a.name) == encode_utf8(b.name) {
        lemma_same_bytes(a.name, b.name);
    }
}

/// Channels are ordered by name, then direction, then instance.
impl PartialOrd for Channel {
    fn partial_cmp(&self, other: &Channel) -> (r: Option<Ordering>) {
        Some(
            match self.order(other) {
                Order::Less => Ordering::Less,
                Order::Equal => Ordering::Equal,
                Order::Greater => Ordering::Greater,
            },
        )
    }
}

impl PartialOrdSpecImpl for Channel {
    open spec fn obeys_partial_cmp_spec() -> bool {
        true
    }

    open spec fn partial_cmp_spec(&self, other: &Channel) -> Option<Ordering> {
        Some(as_ordering(channel_order(self@, other@)))
    }
}

/// Copies a list of addresses.
pub fn clone_addresses(addresses: &Vec<Uri>) -> (r: Vec<Uri>)
    ensures
        address_texts(r@) == address_texts(addresses@),
{
    let mut out: Vec<Uri> = Vec::new();
    let mut i: usize = 0;
    while i < addresses.len()
        invariant
            i <= addresses.len(),
            out@.len() == i,
            forall|k: int| 0 <= k < i ==> out@[k]@ == addresses@[k]@,
        decreases addresses.len() - i,
    {
        out.push(addresses[i].clone());
        i += 1;
    }
    assert(address_texts(out@) =~= address_texts(addresses@));
    out
}

impl Channel {
    /// The invariant of a channel: it has a name. Its addresses may be empty
    /// while it is not yet resolved.
    pub open spec fn wf(&self) -> bool {
        channel_named(self@)
    }

    /// Whether the channel has a name, as every channel should.
    pub fn is_valid(&self) -> (r: bool)
        ensures
            r == self.wf(),
    {
        !self.name.as_str().is_empty()
    }

    /// A channel without addresses.
    pub fn new(
        name: String,
        instance: u64,
        channel_type: ChannelType,
        encoding_type: MsgFormat,
    ) -> (r: Channel)
        requires
            name@.len() > 0,
        ensures
            r.wf(),
            r@ == (ChannelView {
                name: name@,
                instance,
                channel_type,
                encoding_type,
                addresses: Seq::empty(),
            }),
    {
        let r = Channel { name, instance, channel_type, encoding_type, addresses: Vec::new() };
        assert(r@.addresses =~= Seq::empty());
        r
    }

    /// The key under which a registry holds a channel.
    pub open spec fn key(self) -> ChannelKey {
        key_of(self@)
    }

    /// How this channel compares to another: by name, then direction, then
    /// instance.
    pub fn order(&self, other: &Channel) -> (r: Order)
        ensures
            r == channel_order(self@, other@),
    {
        match compare_text(self.name.as_str(), other.name.as_str()) {
            Order::Equal => match compare_number(
                self.channel_type.to_u8() as u64,
                other.channel_type.to_u8() as u64,
            ) {
                Order::Equal => compare_number(self.instance, other.instance),
                o => o,
            },
            o => o,
        }
    }

    /// Whether two channels have the same name, direction and instance.
    pub fn same_key(&self, other: &Channel) -> (r: bool)
        ensures
            r == (self.key() == other.key()),
    {
        self.name == other.name && self.channel_type == other.channel_type && self.instance
            == other.instance
    }
}

impl Clone for Channel {
    fn clone(&self) -> (r: Channel)
        ensures
            r@ == self@,
    {
        Channel {
            name: self.name.clone(),
            instance: self.instance,
            channel_type: self.channel_type,
            encoding_type: self.encoding_type,
            addresses: clone_addresses(&self.addresses),
        }
    }
}

/// Whether a channel has a name.
pub open spec fn channel_named(c: ChannelView) -> bool {
    c.name.len() > 0
}

/// Whether every channel of a list has a name.
pub open spec fn channels_named(cs: Seq<ChannelView>) -> bool {
    forall|i: int| 0 <= i < cs.len() ==> channel_named(#[trigger] cs[i])
}

/// Whether every channel of a list has a name.
pub fn channels_are_named(cs: &Vec<Channel>) -> (r: bool)
    ensures
        r == channels_named(channel_views(cs@)),
{
    let mut i: usize = 0;
    while i < cs.len()
        invariant
            i <= cs.len(),
            forall|k: int| 0 <= k < i ==> channel_named(#[trigger] channel_views(cs@)[k]),
        decreases cs.len() - i,
    {
        if !cs[i].is_valid() {
            assert(!channel_named(channel_views(cs@)[i as int]));
            return false;
        }
        i += 1;
    }
    true
}

/// The channels of a message or a registry, each by its view.
pub open spec fn channel_views(channels: Seq<Channel>) -> Seq<ChannelView> {
    channels.map_values(|c: Channel| c@)
}

/// Copies a list of channels.
pub fn clone_channels(channels: &Vec<Channel>) -> (r: Vec<Channel>)
    ensures
        channel_views(r@) == channel_views(channels@),
{
    let mut out: Vec<Channel> = Vec::new();
    let mut i: usize = 0;
    while i < channels.len()
        invariant
            i <= channels.len(),
            out@.len() == i,
            forall|k: int| 0 <= k < i ==> out@[k]@ == channels@[k]@,
        decreases channels.len() - i,
    {
        out.push(channels[i].clone());
        i += 1;
    }
    assert(channel_views(out@) =~= channel_views(channels@));
    out
}

/// What a discovery message is: its state, the text of its origin and its
/// channels.
pub struct DiscoveryMessageView {
    pub state: DiscoveryState,
    pub uri: Seq<char>,
    pub channels: Seq<ChannelView>,
}

/// One message of the discovery protocol.
#[derive(Debug, PartialEq)]
pub struct DiscoveryMessage {
    pub state: DiscoveryState,
    pub uri: Uri,
    pub channels: Vec<Channel>,
}

impl View for DiscoveryMessage {
    type V = DiscoveryMessageView;

    open spec fn view(&self) -> DiscoveryMessageView {
        DiscoveryMessageView {
            state: self.state,
            uri: self.uri@,
            channels: channel_views(self.channels@),
        }
    }
}

impl DiscoveryMessage {
    /// The invariant of a message: each of its channels has a name.
    pub open spec fn wf(&self) -> bool {
        channels_named(self@.channels)
    }

    /// A message with the given state, origin and channels.
    pub fn new(state: DiscoveryState, uri: Uri, channels: Vec<Channel>) -> (r: DiscoveryMessage)
        ensures
            r.state == state,
            r.uri == uri,
            r.channels == channels,
    {
        DiscoveryMessage { state, uri, channels }
    }
}

/// What a queue message is: the channel's name and the payload bytes.
pub struct QueueMessageView {
    pub channel_name: Seq<char>,
    pub data: Seq<u8>,
}

/// The unit exchanged over a transport connection.
#[derive(Clone, PartialEq, Debug)]
pub struct QueueMessage {
    pub channel_name: String,
    pub data: Vec<u8>,
}

impl View for QueueMessage {
    type V = QueueMessageView;

    open spec fn view(&self) -> QueueMessageView {
        QueueMessageView { channel_name: self.channel_name@, data: self.data@ }
    }
}

} // verus!
