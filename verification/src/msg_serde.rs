//! The wire codec: discovery messages and queue messages to and from bytes.
//!
//! A message body is a fixed sequence of fields. Strings carry a `u32` length,
//! collections a `u64` count, enums one byte. On the wire a body follows its
//! own length: a `u32` for discovery messages, a `u64` for queue messages.
use crate::messages::{
    address_texts, channel_named, channel_views, channels_are_named, channels_named, Channel,
    ChannelType, ChannelView, DiscoveryMessage, DiscoveryMessageView, DiscoveryState, MsgFormat,
    QueueMessage, QueueMessageView,
};
use crate::uri::Uri;
use crate::wire::{
    block_fits, enc_block, enc_str, enc_u32, enc_u64, lemma_parse_enc_block, lemma_parse_enc_str,
    lemma_take_concat, lemma_truncated_block, lemma_truncated_str,
    lemma_parse_enc_u32, lemma_parse_enc_u64, parse_block, parse_str, parse_u32, parse_u64,
    parse_u8, read_block, read_str, read_u32, read_u64, read_u8, str_can_be_written, str_fits,
    write_block, write_str, write_u32, write_u64, write_u8, yields, fails, DecodeError,
    EncodeError, Parsed,
};
use vstd::prelude::*;
use vstd::slice::*;

verus! {

// ---------------------------------------------------------------------------
// Lists of strings (the addresses of a channel)
// ---------------------------------------------------------------------------
/// Whether every string of a list is short enough for its length prefix.
pub open spec fn strs_fit(ss: Seq<Seq<char>>) -> bool {
    forall|i: int| 0 <= i < ss.len() ==> str_fits(#[trigger] ss[i])
}

/// The strings of a list on the wire, one after the other.
pub open spec fn enc_strs(ss: Seq<Seq<char>>) -> Seq<u8>
    decreases ss.len(),
{
    if ss.len() == 0 {
        Seq::empty()
    } else {
        enc_str(ss[0]) + enc_strs(ss.skip(1))
    }
}

/// Puts the items already read in front of what is read next.
pub open spec fn after<T>(done: Seq<T>, next: Parsed<Seq<T>>) -> Parsed<Seq<T>> {
    match next {
        Ok((v, rest)) => Ok((done + v, rest)),
        Err(e) => Err(e),
    }
}

/// The parser of `n` strings in a row.
pub open spec fn parse_strs(b: Seq<u8>, n: nat) -> Parsed<Seq<Seq<char>>>
    decreases n,
{
    if n == 0 {
        Ok((Seq::empty(), b))
    } else {
        match parse_str(b) {
            Err(e) => Err(e),
            Ok((s, r)) => after(seq![s], parse_strs(r, (n - 1) as nat)),
        }
    }
}

/// Strings that were written are read back, whatever follows them.
pub proof fn lemma_parse_enc_strs(ss: Seq<Seq<char>>, rest: Seq<u8>)
    requires
        strs_fit(ss),
    ensures
        yields(parse_strs(enc_strs(ss) + rest, ss.len()), ss, rest),
    decreases ss.len(),
{
    if ss.len() == 0 {
        assert(enc_strs(ss) + rest =~= rest);
        assert(ss =~= Seq::empty());
    } else {
        let tail = ss.skip(1);
        assert(forall|i: int| 0 <= i < tail.len() ==> tail[i] == ss[i + 1]);
        assert(enc_strs(ss) + rest =~= enc_str(ss[0]) + (enc_strs(tail) + rest));
        lemma_parse_enc_str(ss[0], enc_strs(tail) + rest);
        lemma_parse_enc_strs(tail, rest);
        assert(seq![ss[0]] + tail =~= ss);
    }
}

// ---------------------------------------------------------------------------
// Channels
// ---------------------------------------------------------------------------
/// Whether a channel can be written: its name, its addresses and their
/// number are short enough for their length prefixes.
pub open spec fn channel_fits(c: ChannelView) -> bool {
    &&& str_fits(c.name)
    &&& c.addresses.len() <= u64::MAX
    &&& strs_fit(c.addresses)
}

/// The two one-byte fields of a channel on the wire: direction, then format.
pub open spec fn enc_kind(t: ChannelType, f: MsgFormat) -> Seq<u8> {
    seq![t.tag(), f.tag()]
}

/// A list of strings on the wire: their number as a `u64`, then each string.
pub open spec fn enc_counted_strs(ss: Seq<Seq<char>>) -> Seq<u8> {
    enc_u64(ss.len() as u64) + enc_strs(ss)
}

/// A channel on the wire: name, instance, direction, format, the number of
/// addresses, then each address as a string.
pub open spec fn enc_channel(c: ChannelView) -> Seq<u8> {
    enc_str(c.name) + (enc_u64(c.instance) + (enc_kind(c.channel_type, c.encoding_type)
        + enc_counted_strs(c.addresses)))
}

/// The parser of a channel's name: a string that is not empty.
pub open spec fn parse_name(b: Seq<u8>) -> Parsed<Seq<char>> {
    match parse_str(b) {
        Err(e) => Err(e),
        Ok((name, r)) => if name.len() == 0 {
            Err(DecodeError::EmptyName)
        } else {
            Ok((name, r))
        },
    }
}

/// The two one-byte fields of a channel: direction, then format.
pub open spec fn parse_kind(b: Seq<u8>) -> Parsed<(ChannelType, MsgFormat)> {
    match parse_u8(b) {
        Err(e) => Err(e),
        Ok((t, b1)) => match ChannelType::of_tag(t) {
            None => Err(DecodeError::UnknownTag),
            Some(channel_type) => match parse_u8(b1) {
                Err(e) => Err(e),
                Ok((f, b2)) => match MsgFormat::of_tag(f) {
                    None => Err(DecodeError::UnknownTag),
                    Some(encoding_type) => Ok(((channel_type, encoding_type), b2)),
                },
            },
        },
    }
}

/// A count, then that many strings.
pub open spec fn parse_counted_strs(b: Seq<u8>) -> Parsed<Seq<Seq<char>>> {
    match parse_u64(b) {
        Err(e) => Err(e),
        Ok((n, r)) => parse_strs(r, n as nat),
    }
}

/// The parser of a channel: the channel, and the bytes after it. A channel
/// without a name is refused.
pub open spec fn parse_channel(b: Seq<u8>) -> Parsed<ChannelView> {
    match parse_name(b) {
        Err(e) => Err(e),
        Ok((name, b1)) => match parse_u64(b1) {
            Err(e) => Err(e),
            Ok((instance, b2)) => match parse_kind(b2) {
                Err(e) => Err(e),
                Ok((kind, b3)) => match parse_counted_strs(b3) {
                    Err(e) => Err(e),
                    Ok((addresses, b4)) => Ok(
                        (
                            ChannelView {
                                name,
                                instance,
                                channel_type: kind.0,
                                encoding_type: kind.1,
                                addresses,
                            },
                            b4,
                        ),
                    ),
                },
            },
        },
    }
}

/// Concatenation of byte sequences is associative.
pub proof fn lemma_concat_assoc(a: Seq<u8>, b: Seq<u8>, c: Seq<u8>)
    ensures
        (a + b) + c == a + (b + c),
{
    assert((a + b) + c =~= a + (b + c));
}

/// The two one-byte fields are read back, whatever follows them.
proof fn lemma_parse_enc_kind(t: ChannelType, f: MsgFormat, rest: Seq<u8>)
    ensures
        yields(parse_kind(enc_kind(t, f) + rest), (t, f), rest),
{
    let b0 = enc_kind(t, f) + rest;
    let b1 = b0.skip(1);
    assert(b0[0] == t.tag());
    assert(b1[0] == f.tag());
    assert(b1.skip(1) =~= rest);
}

/// A counted list of strings is read back, whatever follows it.
proof fn lemma_parse_enc_counted_strs(ss: Seq<Seq<char>>, rest: Seq<u8>)
    requires
        ss.len() <= u64::MAX,
        strs_fit(ss),
    ensures
        yields(parse_counted_strs(enc_counted_strs(ss) + rest), ss, rest),
{
    lemma_concat_assoc(enc_u64(ss.len() as u64), enc_strs(ss), rest);
    lemma_parse_enc_u64(ss.len() as u64, enc_strs(ss) + rest);
    lemma_parse_enc_strs(ss, rest);
}

/// A channel that was written is read back, whatever follows it.
pub proof fn lemma_parse_enc_channel(c: ChannelView, rest: Seq<u8>)
    requires
        channel_named(c),
        channel_fits(c),
    ensures
        yields(parse_channel(enc_channel(c) + rest), c, rest),
{
    let e3 = enc_counted_strs(c.addresses);
    let e2 = enc_kind(c.channel_type, c.encoding_type);
    let e1 = enc_u64(c.instance);
    let e0 = enc_str(c.name);
    let b3 = e3 + rest;
    let b2 = e2 + b3;
    let b1 = e1 + b2;
    let b0 = e0 + b1;
    assert(enc_channel(c) + rest == b0) by {
        lemma_concat_assoc(e2, e3, rest);
        lemma_concat_assoc(e1, e2 + e3, rest);
        lemma_concat_assoc(e0, e1 + (e2 + e3), rest);
    }
    assert(yields(parse_name(b0), c.name, b1)) by {
        lemma_parse_enc_str(c.name, b1);
    }
    assert(yields(parse_u64(b1), c.instance, b2)) by {
        lemma_parse_enc_u64(c.instance, b2);
    }
    assert(yields(parse_kind(b2), (c.channel_type, c.encoding_type), b3)) by {
        lemma_parse_enc_kind(c.channel_type, c.encoding_type, b3);
    }
    assert(yields(parse_counted_strs(b3), c.addresses, rest)) by {
        lemma_parse_enc_counted_strs(c.addresses, rest);
    }
}

/// Every channel that is read has a name.
pub proof fn lemma_parsed_channel_named(b: Seq<u8>)
    ensures
        parse_channel(b) matches Ok((c, _)) ==> channel_named(c),
{
}

/// Whether a channel can be written: its name and addresses are short enough
/// for their length prefixes.
pub fn channel_can_be_written(c: &Channel) -> (r: bool)
    ensures
        r == channel_fits(c@),
{
    if !str_can_be_written(c.name.as_str()) {
        return false;
    }
    let mut i: usize = 0;
    while i < c.addresses.len()
        invariant
            i <= c.addresses.len(),
            forall|k: int| 0 <= k < i ==> str_fits(#[trigger] c@.addresses[k]),
        decreases c.addresses.len() - i,
    {
        if !str_can_be_written(c.addresses[i].as_str()) {
            assert(!str_fits(c@.addresses[i as int]));
            return false;
        }
        i += 1;
    }
    true
}

/// Appends a channel.
pub fn write_channel(out: &mut Vec<u8>, c: &Channel)
    requires
        channel_fits(c@),
    ensures
        final(out)@ == old(out)@ + enc_channel(c@),
{
    write_str(out, c.name.as_str());
    write_u64(out, c.instance);
    write_u8(out, c.channel_type.to_u8());
    write_u8(out, c.encoding_type.to_u8());
    write_u64(out, c.addresses.len() as u64);
    let ghost head = out@;
    let ghost texts = c@.addresses;
    assert(texts.skip(0) =~= texts);
    assert(head + enc_strs(texts) =~= old(out)@ + enc_channel(c@));
    let mut i: usize = 0;
    while i < c.addresses.len()
        invariant
            i <= c.addresses.len(),
            texts == c@.addresses,
            strs_fit(texts),
            out@ + enc_strs(texts.skip(i as int)) == head + enc_strs(texts),
        decreases c.addresses.len() - i,
    {
        let ghost before = out@;
        assert(texts.skip(i as int).skip(1) =~= texts.skip(i + 1));
        assert(texts.skip(i as int)[0] == texts[i as int]);
        write_str(out, c.addresses[i].as_str());
        assert(out@ + enc_strs(texts.skip(i + 1)) =~= before + enc_strs(texts.skip(i as int)));
        i += 1;
    }
    assert(enc_strs(texts.skip(i as int)) =~= Seq::<u8>::empty());
    assert(out@ =~= head + enc_strs(texts));
}

/// Reads `n` addresses at `pos`.
fn read_addresses(input: &[u8], pos: usize, n: u64) -> (r: Result<(Vec<Uri>, usize), DecodeError>)
    requires
        pos <= input@.len(),
    ensures
        match r {
            Ok((a, next)) => pos <= next <= input@.len() && yields(
                parse_strs(input@.skip(pos as int), n as nat),
                address_texts(a@),
                input@.skip(next as int),
            ),
            Err(e) => fails(parse_strs(input@.skip(pos as int), n as nat), e),
        },
{
    let mut out: Vec<Uri> = Vec::new();
    let mut at: usize = pos;
    let mut i: u64 = 0;
    let ghost whole = parse_strs(input@.skip(pos as int), n as nat);
    assert(address_texts(out@) + Seq::<Seq<char>>::empty() =~= Seq::<Seq<char>>::empty());
    assert(whole == after(address_texts(out@), parse_strs(input@.skip(at as int), (n - i) as nat)))
        by {
        let p = parse_strs(input@.skip(at as int), (n - i) as nat);
        if let Ok((v, rest)) = p {
            assert(address_texts(out@) + v =~= v);
        }
    }
    while i < n
        invariant
            i <= n,
            pos <= at <= input@.len(),
            whole == parse_strs(input@.skip(pos as int), n as nat),
            whole == after(
                address_texts(out@),
                parse_strs(input@.skip(at as int), (n - i) as nat),
            ),
        decreases n - i,
    {
        let ghost done = address_texts(out@);
        let (s, next) = match read_str(input, at) {
            Ok(v) => v,
            Err(e) => { return Err(e); },
        };
        let uri = Uri::parse(s.as_str());
        out.push(uri);
        proof {
            let tail = parse_strs(input@.skip(next as int), (n - i - 1) as nat);
            assert(address_texts(out@) =~= done + seq![s@]);
            if let Ok((v, rest)) = tail {
                assert(done + (seq![s@] + v) =~= address_texts(out@) + v);
            }
        }
        at = next;
        i += 1;
    }
    proof {
        assert(address_texts(out@) + Seq::<Seq<char>>::empty() =~= address_texts(out@));
    }
    Ok((out, at))
}

/// Reads the direction and the format of a channel at `pos`.
fn read_kind(input: &[u8], pos: usize) -> (r: Result<
    ((ChannelType, MsgFormat), usize),
    DecodeError,
>)
    requires
        pos <= input@.len(),
    ensures
        match r {
            Ok((k, next)) => pos <= next <= input@.len() && yields(
                parse_kind(input@.skip(pos as int)),
                k,
                input@.skip(next as int),
            ),
            Err(e) => fails(parse_kind(input@.skip(pos as int)), e),
        },
{
    let (t, p1) = match read_u8(input, pos) {
        Ok(v) => v,
        Err(e) => { return Err(e); },
    };
    let channel_type = match ChannelType::from_u8(t) {
        Some(v) => v,
        None => { return Err(DecodeError::UnknownTag); },
    };
    let (f, p2) = match read_u8(input, p1) {
        Ok(v) => v,
        Err(e) => { return Err(e); },
    };
    let encoding_type = match MsgFormat::from_u8(f) {
        Some(v) => v,
        None => { return Err(DecodeError::UnknownTag); },
    };
    Ok(((channel_type, encoding_type), p2))
}

/// Reads a count and that many addresses at `pos`.
fn read_counted_addresses(input: &[u8], pos: usize) -> (r: Result<(Vec<Uri>, usize), DecodeError>)
    requires
        pos <= input@.len(),
    ensures
        match r {
            Ok((a, next)) => pos <= next <= input@.len() && yields(
                parse_counted_strs(input@.skip(pos as int)),
                address_texts(a@),
                input@.skip(next as int),
            ),
            Err(e) => fails(parse_counted_strs(input@.skip(pos as int)), e),
        },
{
    let (n, p1) = match read_u64(input, pos) {
        Ok(v) => v,
        Err(e) => { return Err(e); },
    };
    read_addresses(input, p1, n)
}

/// Reads a channel at `pos`.
pub fn read_channel(input: &[u8], pos: usize) -> (r: Result<(Channel, usize), DecodeError>)
    requires
        pos <= input@.len(),
    ensures
        match r {
            Ok((c, next)) => c.wf() && pos <= next <= input@.len() && yields(
                parse_channel(input@.skip(pos as int)),
                c@,
                input@.skip(next as int),
            ),
            Err(e) => fails(parse_channel(input@.skip(pos as int)), e),
        },
{
    let (name, p1) = match read_str(input, pos) {
        Ok(v) => v,
        Err(e) => { return Err(e); },
    };
    if name.as_str().is_empty() {
        return Err(DecodeError::EmptyName);
    }
    let (instance, p2) = match read_u64(input, p1) {
        Ok(v) => v,
        Err(e) => { return Err(e); },
    };
    let (kind, p3) = match read_kind(input, p2) {
        Ok(v) => v,
        Err(e) => { return Err(e); },
    };
    let (addresses, p4) = match read_counted_addresses(input, p3) {
        Ok(v) => v,
        Err(e) => { return Err(e); },
    };
    Ok(
        (
            Channel {
                name,
                instance,
                channel_type: kind.0,
                encoding_type: kind.1,
                addresses,
            },
            p4,
        ),
    )
}

// ---------------------------------------------------------------------------
// Lists of channels
// ---------------------------------------------------------------------------
/// Whether every channel of a list can be written.
pub open spec fn channels_fit(cs: Seq<ChannelView>) -> bool {
    forall|i: int| 0 <= i < cs.len() ==> channel_fits(#[trigger] cs[i])
}

/// The channels of a list on the wire, one after the other.
pub open spec fn enc_channels(cs: Seq<ChannelView>) -> Seq<u8>
    decreases cs.len(),
{
    if cs.len() == 0 {
        Seq::empty()
    } else {
        enc_channel(cs[0]) + enc_channels(cs.skip(1))
    }
}

/// The parser of `n` channels in a row.
pub open spec fn parse_channels(b: Seq<u8>, n: nat) -> Parsed<Seq<ChannelView>>
    decreases n,
{
    if n == 0 {
        Ok((Seq::empty(), b))
    } else {
        match parse_channel(b) {
            Err(e) => Err(e),
            Ok((c, r)) => after(seq![c], parse_channels(r, (n - 1) as nat)),
        }
    }
}

/// Channels that were written are read back, whatever follows them.
pub proof fn lemma_parse_enc_channels(cs: Seq<ChannelView>, rest: Seq<u8>)
    requires
        channels_named(cs),
        channels_fit(cs),
    ensures
        yields(parse_channels(enc_channels(cs) + rest, cs.len()), cs, rest),
    decreases cs.len(),
{
    if cs.len() == 0 {
        assert(enc_channels(cs) + rest =~= rest);
        assert(cs =~= Seq::empty());
    } else {
        let tail = cs.skip(1);
        assert(forall|i: int| 0 <= i < tail.len() ==> tail[i] == cs[i + 1]);
        assert(enc_channels(cs) + rest =~= enc_channel(cs[0]) + (enc_channels(tail) + rest));
        lemma_parse_enc_channel(cs[0], enc_channels(tail) + rest);
        lemma_parse_enc_channels(tail, rest);
        assert(seq![cs[0]] + tail =~= cs);
    }
}

/// Whether every channel of a list can be written.
pub fn channels_can_be_written(cs: &Vec<Channel>) -> (r: bool)
    ensures
        r == channels_fit(channel_views(cs@)),
{
    let mut i: usize = 0;
    while i < cs.len()
        invariant
            i <= cs.len(),
            forall|k: int| 0 <= k < i ==> channel_fits(#[trigger] channel_views(cs@)[k]),
        decreases cs.len() - i,
    {
        if !channel_can_be_written(&cs[i]) {
            assert(!channel_fits(channel_views(cs@)[i as int]));
            return false;
        }
        i += 1;
    }
    true
}

/// Appends every channel of a list, in order.
pub fn write_channels(out: &mut Vec<u8>, cs: &Vec<Channel>)
    requires
        channels_fit(channel_views(cs@)),
    ensures
        final(out)@ == old(out)@ + enc_channels(channel_views(cs@)),
{
    let ghost head = out@;
    let ghost views = channel_views(cs@);
    assert(views.skip(0) =~= views);
    let mut i: usize = 0;
    while i < cs.len()
        invariant
            i <= cs.len(),
            views == channel_views(cs@),
            channels_fit(views),
            out@ + enc_channels(views.skip(i as int)) == head + enc_channels(views),
        decreases cs.len() - i,
    {
        let ghost before = out@;
        assert(views.skip(i as int).skip(1) =~= views.skip(i + 1));
        assert(views.skip(i as int)[0] == views[i as int]);
        write_channel(out, &cs[i]);
        assert(out@ + enc_channels(views.skip(i + 1)) =~= before + enc_channels(
            views.skip(i as int),
        ));
        i += 1;
    }
    assert(enc_channels(views.skip(i as int)) =~= Seq::<u8>::empty());
    assert(out@ =~= head + enc_channels(views));
}

/// Reads `n` channels at `pos`.
fn read_channels(input: &[u8], pos: usize, n: u64) -> (r: Result<
    (Vec<Channel>, usize),
    DecodeError,
>)
    requires
        pos <= input@.len(),
    ensures
        match r {
            Ok((c, next)) => channels_named(channel_views(c@)) && pos <= next <= input@.len()
                && yields(
                parse_channels(input@.skip(pos as int), n as nat),
                channel_views(c@),
                input@.skip(next as int),
            ),
            Err(e) => fails(parse_channels(input@.skip(pos as int), n as nat), e),
        },
{
    let mut out: Vec<Channel> = Vec::new();
    let mut at: usize = pos;
    let mut i: u64 = 0;
    let ghost whole = parse_channels(input@.skip(pos as int), n as nat);
    assert(whole == after(
        channel_views(out@),
        parse_channels(input@.skip(at as int), (n - i) as nat),
    )) by {
        let p = parse_channels(input@.skip(at as int), (n - i) as nat);
        if let Ok((v, rest)) = p {
            assert(channel_views(out@) + v =~= v);
        }
    }
    while i < n
        invariant
            i <= n,
            pos <= at <= input@.len(),
            whole == parse_channels(input@.skip(pos as int), n as nat),
            channels_named(channel_views(out@)),
            whole == after(
                channel_views(out@),
                parse_channels(input@.skip(at as int), (n - i) as nat),
            ),
        decreases n - i,
    {
        let ghost done = channel_views(out@);
        let (c, next) = match read_channel(input, at) {
            Ok(v) => v,
            Err(e) => { return Err(e); },
        };
        let ghost cv = c@;
        out.push(c);
        proof {
            let tail = parse_channels(input@.skip(next as int), (n - i - 1) as nat);
            assert(channel_views(out@) =~= done + seq![cv]);
            if let Ok((v, rest)) = tail {
                assert(done + (seq![cv] + v) =~= channel_views(out@) + v);
            }
        }
        at = next;
        i += 1;
    }
    proof {
        assert(channel_views(out@) + Seq::<ChannelView>::empty() =~= channel_views(out@));
    }
    Ok((out, at))
}

// ---------------------------------------------------------------------------
// Discovery messages
// ---------------------------------------------------------------------------
/// Whether a discovery message can be written: every string and every count
/// is short enough for its length prefix.
pub open spec fn discovery_fits(m: DiscoveryMessageView) -> bool {
    &&& str_fits(m.uri)
    &&& m.channels.len() <= u64::MAX
    &&& channels_fit(m.channels)
}

/// The first byte of a discovery message: its state.
pub open spec fn enc_state(state: DiscoveryState) -> Seq<u8> {
    seq![state.tag()]
}

/// A list of channels on the wire: their number as a `u64`, then each channel.
pub open spec fn enc_counted_channels(cs: Seq<ChannelView>) -> Seq<u8> {
    enc_u64(cs.len() as u64) + enc_channels(cs)
}

/// The body of a discovery message: state, origin, the number of channels,
/// then each channel.
pub open spec fn enc_discovery(m: DiscoveryMessageView) -> Seq<u8> {
    enc_state(m.state) + (enc_str(m.uri) + enc_counted_channels(m.channels))
}

/// The parser of the first byte of a discovery message, which names the
/// state.
pub open spec fn parse_state(b: Seq<u8>) -> Parsed<DiscoveryState> {
    match parse_u8(b) {
        Err(e) => Err(e),
        Ok((t, b1)) => match DiscoveryState::of_tag(t) {
            None => Err(DecodeError::UnknownTag),
            Some(state) => Ok((state, b1)),
        },
    }
}

/// A count, then that many channels.
pub open spec fn parse_counted_channels(b: Seq<u8>) -> Parsed<Seq<ChannelView>> {
    match parse_u64(b) {
        Err(e) => Err(e),
        Ok((n, r)) => parse_channels(r, n as nat),
    }
}

/// The parser of a discovery message body: the message, and the bytes after it.
pub open spec fn parse_discovery(b: Seq<u8>) -> Parsed<DiscoveryMessageView> {
    match parse_state(b) {
        Err(e) => Err(e),
        Ok((state, b1)) => match parse_str(b1) {
            Err(e) => Err(e),
            Ok((uri, b2)) => match parse_counted_channels(b2) {
                Err(e) => Err(e),
                Ok((channels, b3)) => Ok((DiscoveryMessageView { state, uri, channels }, b3)),
            },
        },
    }
}

/// The state is read back, whatever follows it.
proof fn lemma_parse_enc_state(state: DiscoveryState, rest: Seq<u8>)
    ensures
        yields(parse_state(enc_state(state) + rest), state, rest),
{
    let b0 = enc_state(state) + rest;
    assert(b0[0] == state.tag());
    assert(b0.skip(1) =~= rest);
}

/// A counted list of channels is read back, whatever follows it.
proof fn lemma_parse_enc_counted_channels(cs: Seq<ChannelView>, rest: Seq<u8>)
    requires
        cs.len() <= u64::MAX,
        channels_named(cs),
        channels_fit(cs),
    ensures
        yields(parse_counted_channels(enc_counted_channels(cs) + rest), cs, rest),
{
    lemma_concat_assoc(enc_u64(cs.len() as u64), enc_channels(cs), rest);
    lemma_parse_enc_u64(cs.len() as u64, enc_channels(cs) + rest);
    lemma_parse_enc_channels(cs, rest);
}

/// Decoding inverts encoding: the parser reads back every message that can be
/// written, and leaves what follows it untouched.
pub proof fn lemma_parse_enc_discovery(m: DiscoveryMessageView, rest: Seq<u8>)
    requires
        channels_named(m.channels),
        discovery_fits(m),
    ensures
        yields(parse_discovery(enc_discovery(m) + rest), m, rest),
{
    let e2 = enc_counted_channels(m.channels);
    let e1 = enc_str(m.uri);
    let e0 = enc_state(m.state);
    let b2 = e2 + rest;
    let b1 = e1 + b2;
    let b0 = e0 + b1;
    assert(enc_discovery(m) + rest == b0) by {
        lemma_concat_assoc(e1, e2, rest);
        lemma_concat_assoc(e0, e1 + e2, rest);
    }
    assert(yields(parse_state(b0), m.state, b1)) by {
        lemma_parse_enc_state(m.state, b1);
    }
    assert(yields(parse_str(b1), m.uri, b2)) by {
        lemma_parse_enc_str(m.uri, b2);
    }
    assert(yields(parse_counted_channels(b2), m.channels, rest)) by {
        lemma_parse_enc_counted_channels(m.channels, rest);
    }
}

/// Whether a discovery message can be written.
pub fn discovery_can_be_written(msg: &DiscoveryMessage) -> (r: bool)
    ensures
        r == discovery_fits(msg@),
{
    let count: usize = msg.channels.len();
    assert(msg@.channels.len() == count);
    str_can_be_written(msg.uri.as_str()) && channels_can_be_written(&msg.channels)
}

/// Appends the body of a discovery message.
pub fn write_discovery(out: &mut Vec<u8>, msg: &DiscoveryMessage)
    requires
        discovery_fits(msg@),
    ensures
        final(out)@ == old(out)@ + enc_discovery(msg@),
{
    write_u8(out, msg.state.to_u8());
    write_str(out, msg.uri.as_str());
    write_u64(out, msg.channels.len() as u64);
    write_channels(out, &msg.channels);
    assert(out@ =~= old(out)@ + enc_discovery(msg@));
}

/// Why a discovery message cannot be encoded, if it cannot: a channel has no
/// name, or else a string is too long for its length prefix.
pub open spec fn encode_failure(m: DiscoveryMessageView) -> Option<EncodeError> {
    if !channels_named(m.channels) {
        Some(EncodeError::EmptyName)
    } else if !discovery_fits(m) {
        Some(EncodeError::StringTooLong)
    } else {
        None
    }
}

/// Encodes the body of a discovery message. It fails when a channel has no
/// name, or when a string of the message is too long for its length prefix,
/// and on no other message.
pub fn encode_discovery(msg: &DiscoveryMessage) -> (r: Result<Vec<u8>, EncodeError>)
    ensures
        match r {
            Ok(b) => encode_failure(msg@).is_none() && b@ == enc_discovery(msg@),
            Err(e) => encode_failure(msg@) == Some(e),
        },
{
    if !channels_are_named(&msg.channels) {
        return Err(EncodeError::EmptyName);
    }
    if !discovery_can_be_written(msg) {
        return Err(EncodeError::StringTooLong);
    }
    let mut out: Vec<u8> = Vec::new();
    write_discovery(&mut out, msg);
    assert(out@ =~= enc_discovery(msg@));
    Ok(out)
}

/// Overwrites the start of `output` with `bytes`; what follows stays.
fn overwrite_prefix(output: &mut Vec<u8>, bytes: &Vec<u8>)
    requires
        bytes@.len() <= old(output)@.len(),
    ensures
        final(output)@ == bytes@ + old(output)@.skip(bytes@.len() as int),
{
    let mut i: usize = 0;
    while i < bytes.len()
        invariant
            i <= bytes@.len() <= output@.len(),
            output@.len() == old(output)@.len(),
            forall|k: int| 0 <= k < i ==> output@[k] == bytes@[k],
            forall|k: int| i <= k < output@.len() ==> output@[k] == old(output)@[k],
        decreases bytes.len() - i,
    {
        output[i] = bytes[i];
        i += 1;
    }
    assert(output@ =~= bytes@ + old(output)@.skip(bytes@.len() as int));
}

/// Why a discovery message cannot be written into a buffer of `room` bytes,
/// if it cannot: it cannot be encoded, or else the buffer is too small.
pub open spec fn write_failure(m: DiscoveryMessageView, room: nat) -> Option<EncodeError> {
    if encode_failure(m).is_some() {
        encode_failure(m)
    } else if enc_discovery(m).len() > room {
        Some(EncodeError::BufferTooSmall)
    } else {
        None
    }
}

/// Writes the body of a discovery message at the start of a buffer of fixed
/// size and returns how many bytes of the buffer are left after it. It fails
/// when the message cannot be encoded or the buffer is too small, and on no
/// other input. On an error the buffer is unchanged.
pub fn write_ds_msg(msg: &DiscoveryMessage, output: &mut Vec<u8>) -> (r: Result<
    usize,
    EncodeError,
>)
    ensures
        match r {
            Ok(left) => {
                &&& write_failure(msg@, old(output)@.len()).is_none()
                &&& left + enc_discovery(msg@).len() == old(output)@.len()
                &&& final(output)@ == enc_discovery(msg@) + old(output)@.skip(
                    enc_discovery(msg@).len() as int,
                )
            },
            Err(e) => {
                &&& write_failure(msg@, old(output)@.len()) == Some(e)
                &&& final(output)@ == old(output)@
            },
        },
{
    let bytes = match encode_discovery(msg) {
        Ok(b) => b,
        Err(e) => { return Err(e); },
    };
    if bytes.len() > output.len() {
        return Err(EncodeError::BufferTooSmall);
    }
    overwrite_prefix(output, &bytes);
    Ok(output.len() - bytes.len())
}

/// Reads the body of a discovery message at `pos`.
fn read_discovery(input: &[u8], pos: usize) -> (r: Result<(DiscoveryMessage, usize), DecodeError>)
    requires
        pos <= input@.len(),
    ensures
        match r {
            Ok((m, next)) => m.wf() && pos <= next <= input@.len() && yields(
                parse_discovery(input@.skip(pos as int)),
                m@,
                input@.skip(next as int),
            ),
            Err(e) => fails(parse_discovery(input@.skip(pos as int)), e),
        },
{
    let (t, p2) = match read_u8(input, pos) {
        Ok(v) => v,
        Err(e) => { return Err(e); },
    };
    let state = match DiscoveryState::from_u8(t) {
        Some(v) => v,
        None => { return Err(DecodeError::UnknownTag); },
    };
    assert(yields(parse_state(input@.skip(pos as int)), state, input@.skip(p2 as int)));
    let (text, p3) = match read_str(input, p2) {
        Ok(v) => v,
        Err(e) => { return Err(e); },
    };
    let uri = Uri::parse(text.as_str());
    let (n, p4) = match read_u64(input, p3) {
        Ok(v) => v,
        Err(e) => { return Err(e); },
    };
    let (channels, p5) = match read_channels(input, p4, n) {
        Ok(v) => v,
        Err(e) => { return Err(e); },
    };
    Ok((DiscoveryMessage { state, uri, channels }, p5))
}

/// Decodes the body of a discovery message from the start of `input`, and
/// returns it with the bytes that follow it.
pub fn read_ds_msg(input: &[u8]) -> (r: Result<(&[u8], DiscoveryMessage), DecodeError>)
    ensures
        match r {
            Ok((rest, m)) => m.wf() && yields(parse_discovery(input@), m@, rest@),
            Err(e) => fails(parse_discovery(input@), e),
        },
{
    assert(input@.skip(0) =~= input@);
    match read_discovery(input, 0) {
        Ok((m, next)) => {
            let rest = slice_subrange(input, next, input.len());
            assert(rest@ =~= input@.skip(next as int));
            Ok((rest, m))
        },
        Err(e) => Err(e),
    }
}

/// Decodes the body of a discovery message; bytes after it are ignored.
pub fn decode_discovery(input: &[u8]) -> (r: Result<DiscoveryMessage, DecodeError>)
    ensures
        match r {
            Ok(m) => m.wf() && (parse_discovery(input@) matches Ok((v, _)) && v == m@),
            Err(e) => fails(parse_discovery(input@), e),
        },
{
    match read_ds_msg(input) {
        Ok((_, m)) => Ok(m),
        Err(e) => Err(e),
    }
}

// ---------------------------------------------------------------------------
// Bodies of which a part is missing
// ---------------------------------------------------------------------------
/// Strings of which a part is missing are not read.
proof fn lemma_truncated_strs(ss: Seq<Seq<char>>, k: int)
    requires
        strs_fit(ss),
        0 <= k < enc_strs(ss).len(),
    ensures
        fails(parse_strs(enc_strs(ss).take(k), ss.len()), DecodeError::Truncated),
    decreases ss.len(),
{
    if ss.len() > 0 {
        let first = enc_str(ss[0]);
        let tail = ss.skip(1);
        assert(forall|i: int| 0 <= i < tail.len() ==> tail[i] == ss[i + 1]);
        lemma_take_concat(first, enc_strs(tail), k);
        if k < first.len() {
            lemma_truncated_str(ss[0], k);
        } else {
            lemma_parse_enc_str(ss[0], enc_strs(tail).take(k - first.len()));
            lemma_truncated_strs(tail, k - first.len());
        }
    }
}

/// A counted list of strings of which a part is missing is not read.
proof fn lemma_truncated_counted_strs(ss: Seq<Seq<char>>, k: int)
    requires
        ss.len() <= u64::MAX,
        strs_fit(ss),
        0 <= k < enc_counted_strs(ss).len(),
    ensures
        fails(parse_counted_strs(enc_counted_strs(ss).take(k)), DecodeError::Truncated),
{
    let n = ss.len() as u64;
    vstd::bytes::lemma_auto_spec_u64_to_from_le_bytes();
    lemma_take_concat(enc_u64(n), enc_strs(ss), k);
    if k >= 8 {
        lemma_parse_enc_u64(n, enc_strs(ss).take(k - 8));
        lemma_truncated_strs(ss, k - 8);
    }
}

/// The two one-byte fields are not read if one is missing.
proof fn lemma_truncated_kind(t: ChannelType, f: MsgFormat, k: int)
    requires
        0 <= k < 2,
    ensures
        fails(parse_kind(enc_kind(t, f).take(k)), DecodeError::Truncated),
{
    let b = enc_kind(t, f).take(k);
    if k == 1 {
        assert(b[0] == t.tag());
        assert(b.skip(1).len() == 0);
    }
}

/// A channel of which a part is missing is not read: the parser says that
/// the buffer ends too early.
pub proof fn lemma_truncated_channel(c: ChannelView, k: int)
    requires
        channel_named(c),
        channel_fits(c),
        0 <= k < enc_channel(c).len(),
    ensures
        fails(parse_channel(enc_channel(c).take(k)), DecodeError::Truncated),
{
    let e3 = enc_counted_strs(c.addresses);
    let e2 = enc_kind(c.channel_type, c.encoding_type);
    let e1 = enc_u64(c.instance);
    let e0 = enc_str(c.name);
    vstd::bytes::lemma_auto_spec_u64_to_from_le_bytes();
    lemma_take_concat(e0, e1 + (e2 + e3), k);
    if k < e0.len() {
        lemma_truncated_str(c.name, k);
    } else {
        let k1 = k - e0.len();
        let r1 = (e1 + (e2 + e3)).take(k1);
        lemma_parse_enc_str(c.name, r1);
        assert(yields(parse_name(e0 + r1), c.name, r1));
        lemma_take_concat(e1, e2 + e3, k1);
        if k1 >= 8 {
            let k2 = k1 - 8;
            let r2 = (e2 + e3).take(k2);
            lemma_parse_enc_u64(c.instance, r2);
            lemma_take_concat(e2, e3, k2);
            if k2 < 2 {
                lemma_truncated_kind(c.channel_type, c.encoding_type, k2);
            } else {
                let r3 = e3.take(k2 - 2);
                lemma_parse_enc_kind(c.channel_type, c.encoding_type, r3);
                lemma_truncated_counted_strs(c.addresses, k2 - 2);
            }
        }
    }
}

/// Channels of which a part is missing are not read.
proof fn lemma_truncated_channels(cs: Seq<ChannelView>, k: int)
    requires
        channels_named(cs),
        channels_fit(cs),
        0 <= k < enc_channels(cs).len(),
    ensures
        fails(parse_channels(enc_channels(cs).take(k), cs.len()), DecodeError::Truncated),
    decreases cs.len(),
{
    if cs.len() > 0 {
        let first = enc_channel(cs[0]);
        let tail = cs.skip(1);
        assert(forall|i: int| 0 <= i < tail.len() ==> tail[i] == cs[i + 1]);
        lemma_take_concat(first, enc_channels(tail), k);
        if k < first.len() {
            lemma_truncated_channel(cs[0], k);
        } else {
            lemma_parse_enc_channel(cs[0], enc_channels(tail).take(k - first.len()));
            lemma_truncated_channels(tail, k - first.len());
        }
    }
}

/// The body of a discovery message of which a part is missing is not
/// decoded: the parser says that the buffer ends too early.
pub proof fn lemma_truncated_discovery(m: DiscoveryMessageView, k: int)
    requires
        channels_named(m.channels),
        discovery_fits(m),
        0 <= k < enc_discovery(m).len(),
    ensures
        fails(parse_discovery(enc_discovery(m).take(k)), DecodeError::Truncated),
{
    let n = m.channels.len() as u64;
    let e2 = enc_counted_channels(m.channels);
    let e1 = enc_str(m.uri);
    let e0 = enc_state(m.state);
    vstd::bytes::lemma_auto_spec_u64_to_from_le_bytes();
    lemma_take_concat(e0, e1 + e2, k);
    if k >= 1 {
        let k1 = k - 1;
        let r1 = (e1 + e2).take(k1);
        lemma_parse_enc_state(m.state, r1);
        lemma_take_concat(e1, e2, k1);
        if k1 < e1.len() {
            lemma_truncated_str(m.uri, k1);
        } else {
            let k2 = k1 - e1.len();
            let r2 = e2.take(k2);
            lemma_parse_enc_str(m.uri, r2);
            lemma_take_concat(enc_u64(n), enc_channels(m.channels), k2);
            if k2 >= 8 {
                lemma_parse_enc_u64(n, enc_channels(m.channels).take(k2 - 8));
                lemma_truncated_channels(m.channels, k2 - 8);
            }
        }
    }
}

// ---------------------------------------------------------------------------
// Queue messages
// ---------------------------------------------------------------------------
/// Whether a queue message can be written.
pub open spec fn queue_message_fits(m: QueueMessageView) -> bool {
    str_fits(m.channel_name) && block_fits(m.data)
}

/// The body of a queue message: the channel's name, then the payload.
pub open spec fn enc_queue_message(m: QueueMessageView) -> Seq<u8> {
    enc_str(m.channel_name) + enc_block(m.data)
}

/// The parser of a queue message body: the message, and the bytes after it.
pub open spec fn parse_queue_message(b: Seq<u8>) -> Parsed<QueueMessageView> {
    match parse_str(b) {
        Err(e) => Err(e),
        Ok((channel_name, b1)) => match parse_block(b1) {
            Err(e) => Err(e),
            Ok((data, b2)) => Ok((QueueMessageView { channel_name, data }, b2)),
        },
    }
}

/// Decoding inverts encoding, for queue messages.
pub proof fn lemma_parse_enc_queue_message(m: QueueMessageView, rest: Seq<u8>)
    requires
        queue_message_fits(m),
    ensures
        yields(parse_queue_message(enc_queue_message(m) + rest), m, rest),
{
    lemma_concat_assoc(enc_str(m.channel_name), enc_block(m.data), rest);
    lemma_parse_enc_str(m.channel_name, enc_block(m.data) + rest);
    lemma_parse_enc_block(m.data, rest);
}

/// The body of a queue message of which a part is missing is not decoded:
/// the parser says that the buffer ends too early.
pub proof fn lemma_truncated_queue_message(m: QueueMessageView, k: int)
    requires
        queue_message_fits(m),
        0 <= k < enc_queue_message(m).len(),
    ensures
        fails(parse_queue_message(enc_queue_message(m).take(k)), DecodeError::Truncated),
{
    let e0 = enc_str(m.channel_name);
    let e1 = enc_block(m.data);
    lemma_take_concat(e0, e1, k);
    if k < e0.len() {
        lemma_truncated_str(m.channel_name, k);
    } else {
        lemma_parse_enc_str(m.channel_name, e1.take(k - e0.len()));
        lemma_truncated_block(m.data, k - e0.len());
    }
}

/// Encodes the body of a queue message. Fails only when the channel's name is
/// too long for its length prefix.
pub fn encode_queue_message(msg: &QueueMessage) -> (r: Result<Vec<u8>, EncodeError>)
    ensures
        match r {
            Ok(b) => queue_message_fits(msg@) && b@ == enc_queue_message(msg@),
            Err(e) => !queue_message_fits(msg@) && e == EncodeError::StringTooLong,
        },
{
    let size: usize = msg.data.len();
    assert(msg@.data.len() == size);
    if !str_can_be_written(msg.channel_name.as_str()) {
        return Err(EncodeError::StringTooLong);
    }
    let mut out: Vec<u8> = Vec::new();
    write_str(&mut out, msg.channel_name.as_str());
    write_block(&mut out, msg.data.as_slice());
    assert(out@ =~= enc_queue_message(msg@));
    Ok(out)
}

/// Why a queue message cannot be written into a buffer of `room` bytes, if
/// it cannot: the channel's name is too long for its length prefix, or else
/// the buffer is too small.
pub open spec fn queue_write_failure(m: QueueMessageView, room: nat) -> Option<EncodeError> {
    if !queue_message_fits(m) {
        Some(EncodeError::StringTooLong)
    } else if enc_queue_message(m).len() > room {
        Some(EncodeError::BufferTooSmall)
    } else {
        None
    }
}

/// Writes the body of a queue message at the start of a buffer of fixed size
/// and returns how many bytes of the buffer are left after it. It fails when
/// the channel's name is too long or the buffer is too small, and on no other
/// input. On an error the buffer is unchanged.
pub fn write_queue_msg(msg: &QueueMessage, output: &mut Vec<u8>) -> (r: Result<usize, EncodeError>)
    ensures
        match r {
            Ok(left) => {
                &&& queue_write_failure(msg@, old(output)@.len()).is_none()
                &&& left + enc_queue_message(msg@).len() == old(output)@.len()
                &&& final(output)@ == enc_queue_message(msg@) + old(output)@.skip(
                    enc_queue_message(msg@).len() as int,
                )
            },
            Err(e) => {
                &&& queue_write_failure(msg@, old(output)@.len()) == Some(e)
                &&& final(output)@ == old(output)@
            },
        },
{
    let bytes = match encode_queue_message(msg) {
        Ok(b) => b,
        Err(e) => { return Err(e); },
    };
    if bytes.len() > output.len() {
        return Err(EncodeError::BufferTooSmall);
    }
    overwrite_prefix(output, &bytes);
    Ok(output.len() - bytes.len())
}

/// Decodes the body of a queue message from the start of `input`, and returns
/// it with the bytes that follow it.
pub fn read_queue_msg(input: &[u8]) -> (r: Result<(&[u8], QueueMessage), DecodeError>)
    ensures
        match r {
            Ok((rest, m)) => yields(parse_queue_message(input@), m@, rest@),
            Err(e) => fails(parse_queue_message(input@), e),
        },
{
    assert(input@.skip(0) =~= input@);
    let (channel_name, p1) = match read_str(input, 0) {
        Ok(v) => v,
        Err(e) => { return Err(e); },
    };
    let (data, p2) = match read_block(input, p1) {
        Ok(v) => v,
        Err(e) => { return Err(e); },
    };
    let rest = slice_subrange(input, p2, input.len());
    assert(rest@ =~= input@.skip(p2 as int));
    Ok((rest, QueueMessage { channel_name, data }))
}

/// Decodes the body of a queue message; bytes after it are ignored.
pub fn decode_queue_message(input: &[u8]) -> (r: Result<QueueMessage, DecodeError>)
    ensures
        match r {
            Ok(m) => parse_queue_message(input@) matches Ok((v, _)) && v == m@,
            Err(e) => fails(parse_queue_message(input@), e),
        },
{
    match read_queue_msg(input) {
        Ok((_, m)) => Ok(m),
        Err(e) => Err(e),
    }
}

// ---------------------------------------------------------------------------
// Frames
// ---------------------------------------------------------------------------
/// A discovery frame: the length of the body as a `u32`, then the body.
pub open spec fn frame32(body: Seq<u8>) -> Seq<u8> {
    enc_u32(body.len() as u32) + body
}

/// A queue frame: the length of the body as a `u64`, then the body.
pub open spec fn frame64(body: Seq<u8>) -> Seq<u8> {
    enc_block(body)
}

/// The first discovery frame of a buffer: its body and the bytes after it.
/// `None` while the buffer does not yet hold the whole frame.
pub open spec fn parse_frame32(b: Seq<u8>) -> Option<(Seq<u8>, Seq<u8>)> {
    match parse_u32(b) {
        Err(_) => None,
        Ok((n, r)) => if r.len() < n {
            None
        } else {
            Some((r.take(n as int), r.skip(n as int)))
        },
    }
}

/// The first queue frame of a buffer: its body and the bytes after it. `None`
/// while the buffer does not yet hold the whole frame.
pub open spec fn parse_frame64(b: Seq<u8>) -> Option<(Seq<u8>, Seq<u8>)> {
    match parse_block(b) {
        Err(_) => None,
        Ok(v) => Some(v),
    }
}

/// A frame that was written is read back whole, whatever follows it.
pub proof fn lemma_parse_frame32(body: Seq<u8>, rest: Seq<u8>)
    requires
        body.len() <= u32::MAX,
    ensures
        parse_frame32(frame32(body) + rest) == Some((body, rest)),
{
    let n = body.len() as u32;
    lemma_concat_assoc(enc_u32(n), body, rest);
    lemma_parse_enc_u32(n, body + rest);
    assert((body + rest).take(n as int) =~= body);
    assert((body + rest).skip(n as int) =~= rest);
}

/// A frame that was written is read back whole, whatever follows it.
pub proof fn lemma_parse_frame64(body: Seq<u8>, rest: Seq<u8>)
    requires
        body.len() <= u64::MAX,
    ensures
        parse_frame64(frame64(body) + rest) == Some((body, rest)),
{
    lemma_parse_enc_block(body, rest);
}

/// No frame is read from a buffer that holds only part of one.
pub proof fn lemma_partial_frame32(body: Seq<u8>, k: int)
    requires
        body.len() <= u32::MAX,
        0 <= k < frame32(body).len(),
    ensures
        parse_frame32(frame32(body).take(k)).is_none(),
{
    let n = body.len() as u32;
    let whole = frame32(body);
    let part = whole.take(k);
    lemma_parse_enc_u32(n, body);
    if k >= 4 {
        assert(part.take(4) =~= enc_u32(n));
        vstd::bytes::lemma_auto_spec_u32_to_from_le_bytes();
    }
}

/// No frame is read from a buffer that holds only part of one.
pub proof fn lemma_partial_frame64(body: Seq<u8>, k: int)
    requires
        body.len() <= u64::MAX,
        0 <= k < frame64(body).len(),
    ensures
        parse_frame64(frame64(body).take(k)).is_none(),
{
    let n = body.len() as u64;
    let whole = frame64(body);
    let part = whole.take(k);
    lemma_parse_enc_u64(n, body);
    if k >= 8 {
        assert(part.take(8) =~= enc_u64(n));
        vstd::bytes::lemma_auto_spec_u64_to_from_le_bytes();
    }
}

/// Why a discovery message cannot be framed, if it cannot: it cannot be
/// encoded, or else its body is too long for the length prefix of the frame.
pub open spec fn frame_failure(m: DiscoveryMessageView) -> Option<EncodeError> {
    if encode_failure(m).is_some() {
        encode_failure(m)
    } else if enc_discovery(m).len() > u32::MAX {
        Some(EncodeError::FrameTooLong)
    } else {
        None
    }
}

/// Frames a discovery message for the wire. It fails when the message cannot
/// be encoded or its body is too long, and on no other message.
pub fn frame_discovery(msg: &DiscoveryMessage) -> (r: Result<Vec<u8>, EncodeError>)
    ensures
        match r {
            Ok(b) => frame_failure(msg@).is_none() && b@ == frame32(enc_discovery(msg@)),
            Err(e) => frame_failure(msg@) == Some(e),
        },
{
    let mut body = match encode_discovery(msg) {
        Ok(b) => b,
        Err(e) => { return Err(e); },
    };
    if body.len() > 0xffff_ffff {
        return Err(EncodeError::FrameTooLong);
    }
    let mut out: Vec<u8> = Vec::new();
    write_u32(&mut out, body.len() as u32);
    out.append(&mut body);
    assert(out@ =~= frame32(enc_discovery(msg@)));
    Ok(out)
}

/// Frames a queue message for the wire.
pub fn frame_queue_message(msg: &QueueMessage) -> (r: Result<Vec<u8>, EncodeError>)
    ensures
        match r {
            Ok(b) => queue_message_fits(msg@) && b@ == frame64(enc_queue_message(msg@)),
            Err(e) => !queue_message_fits(msg@) && e == EncodeError::StringTooLong,
        },
{
    let body = match encode_queue_message(msg) {
        Ok(b) => b,
        Err(e) => { return Err(e); },
    };
    let mut out: Vec<u8> = Vec::new();
    write_block(&mut out, body.as_slice());
    assert(out@ =~= frame64(enc_queue_message(msg@)));
    Ok(out)
}

/// Splits the first discovery frame off a buffer: its body, and the bytes
/// after it. `None` while the frame is not yet complete.
pub fn split_frame32(input: &[u8]) -> (r: Option<(&[u8], &[u8])>)
    ensures
        match r {
            Some((body, rest)) => parse_frame32(input@) == Some((body@, rest@)),
            None => parse_frame32(input@).is_none(),
        },
{
    assert(input@.skip(0) =~= input@);
    let (n, start) = match read_u32(input, 0) {
        Ok(v) => v,
        Err(_) => { return None; },
    };
    if input.len() - start < n as usize {
        return None;
    }
    let end: usize = start + n as usize;
    let body = slice_subrange(input, start, end);
    let rest = slice_subrange(input, end, input.len());
    assert(input@.skip(start as int).take(n as int) =~= body@);
    assert(input@.skip(start as int).skip(n as int) =~= rest@);
    Some((body, rest))
}

/// Splits the first queue frame off a buffer: its body, and the bytes after
/// it. `None` while the frame is not yet complete.
pub fn split_frame64(input: &[u8]) -> (r: Option<(&[u8], &[u8])>)
    ensures
        match r {
            Some((body, rest)) => parse_frame64(input@) == Some((body@, rest@)),
            None => parse_frame64(input@).is_none(),
        },
{
    assert(input@.skip(0) =~= input@);
    let (n, start) = match read_u64(input, 0) {
        Ok(v) => v,
        Err(_) => { return None; },
    };
    if ((input.len() - start) as u64) < n {
        return None;
    }
    let end: usize = start + n as usize;
    let body = slice_subrange(input, start, end);
    let rest = slice_subrange(input, end, input.len());
    assert(input@.skip(start as int).take(n as int) =~= body@);
    assert(input@.skip(start as int).skip(n as int) =~= rest@);
    Some((body, rest))
}

} // verus!
