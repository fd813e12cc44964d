use net_lib::msg_serde::{
    decode_discovery, decode_queue_message, encode_discovery, encode_queue_message,
    frame_discovery, frame_queue_message, read_channel, read_ds_msg, read_queue_msg,
    split_frame32, split_frame64, write_ds_msg, write_queue_msg,
};
use net_lib::messages::{
    Channel, ChannelType, DiscoveryMessage, DiscoveryState, MsgFormat, QueueMessage,
};
use net_lib::order::{compare_number, compare_text, Order};
use net_lib::uri::Uri;
use rand::rngs::SmallRng;
use rand::{Rng, SeedableRng};
use std::cmp::Ordering;
use net_lib::wire::{read_str, read_u32, read_u64, read_u8, DecodeError, EncodeError};

fn sample() -> DiscoveryMessage {
    DiscoveryMessage {
        state: DiscoveryState::Connect,
        uri: Uri::parse("tcp://127.0.0.1:12345"),
        channels: vec![Channel {
            name: "mychannel".to_string(),
            instance: 0,
            channel_type: ChannelType::Input,
            encoding_type: MsgFormat::Bincode,
            addresses: vec![
                Uri::parse("tcp://192.168.1.1:55126"),
                Uri::parse("tcp://192.145.0.27:156"),
            ],
        }],
    }
}

fn same_channel(a: &Channel, b: &Channel) -> bool {
    a.name == b.name
        && a.instance == b.instance
        && a.channel_type == b.channel_type
        && a.encoding_type == b.encoding_type
        && a.addresses == b.addresses
}

fn same_message(a: &DiscoveryMessage, b: &DiscoveryMessage) -> bool {
    a.state == b.state
        && a.uri == b.uri
        && a.channels.len() == b.channels.len()
        && a.channels.iter().zip(b.channels.iter()).all(|(x, y)| same_channel(x, y))
}

#[test]
fn protocol_discovery() {
    let msg = sample();
    let mut buf = vec![0u8; 1024];
    write_ds_msg(&msg, &mut buf).expect("Failed to serialise");
    let (remaining, msg_out) = read_ds_msg(&buf).expect("failed to deserialise");
    assert_eq!(msg, msg_out);
    assert_eq!(remaining.len(), 906);

    let mut buf = vec![0u8; 1024];
    write_ds_msg(&msg_out, &mut buf).expect("Failed to serialise");
    let (_, msg_out) = read_ds_msg(&buf).expect("failed to deserialise");
    assert_eq!(msg, msg_out);
    assert!(same_message(&msg, &msg_out));
}

#[test]
fn two_way() {
    let discovery = DiscoveryMessage {
        state: DiscoveryState::Connect,
        uri: Uri::parse("tcp://213.123.23.5:31"),
        channels: vec![
            Channel::new("mychannel".to_string(), 13, ChannelType::Output, MsgFormat::Bincode),
            Channel::new("mychannel2".to_string(), 13, ChannelType::Output, MsgFormat::Bincode),
        ],
    };
    let bytes: Vec<u8> = encode_discovery(&discovery).expect("Could not serialise");
    let recover = decode_discovery(bytes.as_slice()).expect("Failed to serialise");
    assert_eq!(discovery, recover);
    assert!(same_message(&discovery, &recover));
}

#[test]
fn discovery_msg_two_way() {
    let discovery = DiscoveryMessage {
        state: DiscoveryState::Connect,
        uri: Uri::parse("tcp://213.123.23.5:31"),
        channels: vec![
            Channel::new("mychannel".to_string(), 13, ChannelType::Output, MsgFormat::Bincode),
            Channel::new("mychannel2".to_string(), 13, ChannelType::Input, MsgFormat::Bincode),
        ],
    };
    let bytes: Vec<u8> = encode_discovery(&discovery).expect("Could not serialise");
    let recover = decode_discovery(bytes.as_slice()).expect("Failed to serialise");
    assert_eq!(discovery, recover);
    assert!(same_message(&discovery, &recover));
    assert_eq!(recover.channels[0].instance, 13);
    assert_eq!(recover.channels[1].channel_type, ChannelType::Input);
}

#[test]
fn urlparser() {
    let url = "tcp://abmac.local:12345";
    let parsed = Uri::parse(url);
    let s = format!("{}://{}{}", parsed.scheme(), parsed.netloc(), parsed.path());
    assert_eq!(url, &s);
    assert_eq!(parsed.scheme(), "tcp");
    assert_eq!(parsed.netloc(), "abmac.local:12345");
    assert_eq!(parsed.path(), "");
    assert_eq!(parsed.as_str(), url);
}

#[test]
fn primitive() {
    let x: DiscoveryState = DiscoveryState::from_u8(1).unwrap();
    assert_eq!(x, DiscoveryState::Connect);
    assert_eq!(DiscoveryState::from_u8(2), Some(DiscoveryState::ConnectResponse));
    assert_eq!(DiscoveryState::from_u8(3), Some(DiscoveryState::QueueData));
    assert_eq!(DiscoveryState::from_u8(255), Some(DiscoveryState::Error));
    assert_eq!(DiscoveryState::from_u8(0), None);
    assert_eq!(DiscoveryState::from_u8(4), None);
    assert_eq!(DiscoveryState::Error.to_u8(), 255);
    assert_eq!(ChannelType::from_u8(0), Some(ChannelType::Input));
    assert_eq!(ChannelType::from_u8(1), Some(ChannelType::Output));
    assert_eq!(ChannelType::from_u8(2), None);
    assert_eq!(MsgFormat::from_u8(0), Some(MsgFormat::Bincode));
    assert_eq!(MsgFormat::from_u8(1), Some(MsgFormat::MsgPack));
    assert_eq!(MsgFormat::from_u8(2), Some(MsgFormat::Json));
    assert_eq!(MsgFormat::from_u8(3), None);
    assert_eq!(MsgFormat::Json.to_u8(), 2);
}

#[test]
fn discovery_bytes_are_exact() {
    let msg = DiscoveryMessage {
        state: DiscoveryState::QueueData,
        uri: Uri::parse("ab"),
        channels: vec![Channel {
            name: "c".to_string(),
            instance: 0x0102,
            channel_type: ChannelType::Output,
            encoding_type: MsgFormat::Json,
            addresses: vec![Uri::parse("x")],
        }],
    };
    let bytes = encode_discovery(&msg).unwrap();
    let mut expected: Vec<u8> = vec![3];
    expected.extend_from_slice(&[2, 0, 0, 0, b'a', b'b']);
    expected.extend_from_slice(&[1, 0, 0, 0, 0, 0, 0, 0]);
    expected.extend_from_slice(&[1, 0, 0, 0, b'c']);
    expected.extend_from_slice(&[2, 1, 0, 0, 0, 0, 0, 0]);
    expected.extend_from_slice(&[1, 2]);
    expected.extend_from_slice(&[1, 0, 0, 0, 0, 0, 0, 0]);
    expected.extend_from_slice(&[1, 0, 0, 0, b'x']);
    assert_eq!(bytes, expected);
}

#[test]
fn round_trip_with_no_channels_and_no_addresses() {
    let empty = DiscoveryMessage::new(DiscoveryState::Error, Uri::parse(""), vec![]);
    let bytes = encode_discovery(&empty).unwrap();
    assert_eq!(bytes.len(), 1 + 4 + 8);
    let back = decode_discovery(&bytes).unwrap();
    assert!(same_message(&empty, &back));

    let bare = DiscoveryMessage::new(
        DiscoveryState::ConnectResponse,
        Uri::parse("tcp://h:1/p"),
        vec![Channel::new("c".to_string(), u64::MAX, ChannelType::Input, MsgFormat::MsgPack)],
    );
    let back = decode_discovery(&encode_discovery(&bare).unwrap()).unwrap();
    assert!(same_message(&bare, &back));
    assert!(back.channels[0].addresses.is_empty());
}

#[test]
fn round_trip_keeps_text_that_is_not_ascii() {
    let msg = DiscoveryMessage::new(
        DiscoveryState::Connect,
        Uri::parse("tcp://caf\u{e9}:80"),
        vec![Channel::new("pre\u{e7}os\u{1f600}".to_string(), 1, ChannelType::Input, MsgFormat::Json)],
    );
    let back = decode_discovery(&encode_discovery(&msg).unwrap()).unwrap();
    assert!(same_message(&msg, &back));
}

#[test]
fn decode_reports_truncation() {
    let bytes = encode_discovery(&sample()).unwrap();
    for cut in 0..bytes.len() {
        assert_eq!(decode_discovery(&bytes[..cut]), Err(DecodeError::Truncated), "cut at {}", cut);
    }
    assert!(decode_discovery(&bytes).is_ok());
}

#[test]
fn decode_reports_unknown_tags() {
    let bytes = encode_discovery(&sample()).unwrap();
    let mut bad = bytes.clone();
    bad[0] = 4;
    assert_eq!(decode_discovery(&bad), Err(DecodeError::UnknownTag));
    let mut bad = bytes.clone();
    bad[0] = 0;
    assert_eq!(decode_discovery(&bad), Err(DecodeError::UnknownTag));
    let kind = 1 + 4 + 21 + 8 + 4 + 9 + 8;
    let mut bad = bytes.clone();
    bad[kind] = 2;
    assert_eq!(decode_discovery(&bad), Err(DecodeError::UnknownTag));
    let mut bad = bytes.clone();
    bad[kind + 1] = 3;
    assert_eq!(decode_discovery(&bad), Err(DecodeError::UnknownTag));
    let mut good = bytes.clone();
    good[0] = 255;
    assert_eq!(decode_discovery(&good).unwrap().state, DiscoveryState::Error);
}

#[test]
fn decode_reports_invalid_utf8() {
    let mut bytes = encode_discovery(&sample()).unwrap();
    bytes[5] = 0xff;
    assert_eq!(decode_discovery(&bytes), Err(DecodeError::InvalidUtf8));
    assert_eq!(read_str(&[2, 0, 0, 0, 0xc3, 0x28], 0), Err(DecodeError::InvalidUtf8));
}

#[test]
fn decode_ignores_what_follows() {
    let mut bytes = encode_discovery(&sample()).unwrap();
    let n = bytes.len();
    bytes.extend_from_slice(&[9, 9, 9]);
    let (rest, msg) = read_ds_msg(&bytes).unwrap();
    assert_eq!(rest, &[9, 9, 9]);
    assert!(same_message(&msg, &sample()));
    assert_eq!(n, 118);
}

#[test]
fn channel_layout_is_read_field_by_field() {
    let mut bytes: Vec<u8> = vec![];
    bytes.extend_from_slice(&[1, 0, 0, 0, b'n']);
    bytes.extend_from_slice(&7u64.to_le_bytes());
    bytes.extend_from_slice(&[1, 0]);
    bytes.extend_from_slice(&1u64.to_le_bytes());
    bytes.extend_from_slice(&[3, 0, 0, 0, b'x', b'y', b'z']);
    let (c, next) = read_channel(&bytes, 0).unwrap();
    assert_eq!(next, bytes.len());
    assert_eq!(c.name, "n");
    assert_eq!(c.instance, 7);
    assert_eq!(c.channel_type, ChannelType::Output);
    assert_eq!(c.encoding_type, MsgFormat::Bincode);
    assert_eq!(c.addresses.len(), 1);
    assert_eq!(c.addresses[0].as_str(), "xyz");
}

#[test]
fn a_channel_without_a_name_is_refused() {
    let mut bytes: Vec<u8> = vec![];
    bytes.extend_from_slice(&[0, 0, 0, 0]);
    bytes.extend_from_slice(&7u64.to_le_bytes());
    bytes.extend_from_slice(&[1, 0]);
    bytes.extend_from_slice(&0u64.to_le_bytes());
    assert_eq!(read_channel(&bytes, 0).err(), Some(DecodeError::EmptyName));

    let mut msg = sample();
    msg.channels[0].name = String::new();
    assert_eq!(encode_discovery(&msg), Err(EncodeError::EmptyName));
    assert_eq!(frame_discovery(&msg), Err(EncodeError::EmptyName));
    let mut buf = vec![0u8; 1024];
    assert_eq!(write_ds_msg(&msg, &mut buf), Err(EncodeError::EmptyName));
    assert_eq!(buf, vec![0u8; 1024]);

    let mut wire = vec![1u8];
    wire.extend_from_slice(&[0, 0, 0, 0]);
    wire.extend_from_slice(&1u64.to_le_bytes());
    wire.extend_from_slice(&bytes);
    assert_eq!(decode_discovery(&wire), Err(DecodeError::EmptyName));
}

#[test]
fn write_ds_msg_needs_room() {
    let msg = sample();
    let mut small = vec![7u8; 117];
    assert_eq!(write_ds_msg(&msg, &mut small), Err(EncodeError::BufferTooSmall));
    assert_eq!(small, vec![7u8; 117]);
    let mut exact = vec![7u8; 118];
    assert_eq!(write_ds_msg(&msg, &mut exact), Ok(0));
    assert_eq!(exact, encode_discovery(&msg).unwrap());
    let mut roomy = vec![7u8; 125];
    assert_eq!(write_ds_msg(&msg, &mut roomy), Ok(7));
    assert_eq!(&roomy[118..], &[7u8; 7]);
}

#[test]
fn wire_primitives() {
    let bytes = [1u8, 2, 3, 4, 5, 6, 7, 8, 9];
    assert_eq!(read_u8(&bytes, 8), Ok((9, 9)));
    assert_eq!(read_u8(&bytes, 9), Err(DecodeError::Truncated));
    assert_eq!(read_u32(&bytes, 1), Ok((0x05040302, 5)));
    assert_eq!(read_u32(&bytes, 6), Err(DecodeError::Truncated));
    assert_eq!(read_u64(&bytes, 1), Ok((0x0908070605040302, 9)));
    assert_eq!(read_u64(&bytes, 2), Err(DecodeError::Truncated));
    assert_eq!(read_str(&[3, 0, 0, 0, b'a', b'b', b'c', b'd'], 0), Ok(("abc".to_string(), 7)));
    assert_eq!(read_str(&[3, 0, 0, 0, b'a', b'b'], 0), Err(DecodeError::Truncated));
}

#[test]
fn queue_message_round_trip() {
    let msg = QueueMessage { channel_name: "prices".to_string(), data: vec![1, 2, 3] };
    let bytes = encode_queue_message(&msg).unwrap();
    let mut expected: Vec<u8> = vec![6, 0, 0, 0];
    expected.extend_from_slice(b"prices");
    expected.extend_from_slice(&3u64.to_le_bytes());
    expected.extend_from_slice(&[1, 2, 3]);
    assert_eq!(bytes, expected);
    assert_eq!(decode_queue_message(&bytes), Ok(msg.clone()));

    let empty = QueueMessage { channel_name: String::new(), data: vec![] };
    let bytes = encode_queue_message(&empty).unwrap();
    assert_eq!(bytes.len(), 12);
    assert_eq!(decode_queue_message(&bytes), Ok(empty));

    let mut more = encode_queue_message(&msg).unwrap();
    more.push(42);
    let (rest, back) = read_queue_msg(&more).unwrap();
    assert_eq!(rest, &[42]);
    assert_eq!(back, msg);
}

#[test]
fn queue_message_errors() {
    let msg = QueueMessage { channel_name: "prices".to_string(), data: vec![1, 2, 3] };
    let bytes = encode_queue_message(&msg).unwrap();
    for cut in 0..bytes.len() {
        assert_eq!(decode_queue_message(&bytes[..cut]), Err(DecodeError::Truncated));
    }
    let mut bad = bytes.clone();
    bad[4] = 0x80;
    assert_eq!(decode_queue_message(&bad), Err(DecodeError::InvalidUtf8));
    let mut buf = vec![0u8; 20];
    assert_eq!(write_queue_msg(&msg, &mut buf), Err(EncodeError::BufferTooSmall));
    let mut buf = vec![0u8; 1024];
    assert_eq!(write_queue_msg(&msg, &mut buf), Ok(1024 - 21));
    assert_eq!(&buf[..21], bytes.as_slice());
}

#[test]
fn frames() {
    let msg = sample();
    let frame = frame_discovery(&msg).unwrap();
    assert_eq!(&frame[..4], &118u32.to_le_bytes());
    assert_eq!(&frame[4..], encode_discovery(&msg).unwrap().as_slice());
    for cut in 0..frame.len() {
        assert!(split_frame32(&frame[..cut]).is_none());
    }
    let mut two = frame.clone();
    two.extend_from_slice(&[5, 0, 0]);
    let (body, rest) = split_frame32(&two).unwrap();
    assert_eq!(body, &frame[4..]);
    assert_eq!(rest, &[5, 0, 0]);
    assert!(split_frame32(rest).is_none());

    let q = QueueMessage { channel_name: "c".to_string(), data: vec![9; 5] };
    let frame = frame_queue_message(&q).unwrap();
    assert_eq!(&frame[..8], &18u64.to_le_bytes());
    for cut in 0..frame.len() {
        assert!(split_frame64(&frame[..cut]).is_none());
    }
    let (body, rest) = split_frame64(&frame).unwrap();
    assert!(rest.is_empty());
    assert_eq!(decode_queue_message(body), Ok(q));
    assert!(split_frame64(&u64::MAX.to_le_bytes()).is_none());
}

#[test]
fn channels_are_equal_by_name() {
    let a = Channel::new("n".to_string(), 1, ChannelType::Input, MsgFormat::Json);
    let b = Channel::new("n".to_string(), 2, ChannelType::Output, MsgFormat::Bincode);
    let c = Channel::new("m".to_string(), 1, ChannelType::Input, MsgFormat::Json);
    assert!(a == b);
    assert!(a != c);
    assert!(!a.same_key(&b));
    assert!(a.same_key(&a.clone()));
    let copy = a.clone();
    assert!(same_channel(&a, &copy));
    assert!(a.is_valid());
    let mut unnamed = a.clone();
    unnamed.name = String::new();
    assert!(!unnamed.is_valid());
}

#[test]
fn uri_parts() {
    let u = Uri::parse("TCP://User@Example.com:8080/foo?x=1#frag");
    assert_eq!(u.as_str(), "TCP://User@Example.com:8080/foo?x=1#frag");
    assert_eq!(u.scheme(), "tcp");
    assert_eq!(u.netloc(), "User@Example.com:8080");
    assert_eq!(u.path(), "/foo");
    assert_eq!(u.hostname(), Some("example.com"));
    assert_eq!(u.port(), Some(8080));
    let bare = Uri::parse("tcp://127.0.0.1");
    assert_eq!(bare.port(), None);
    assert_eq!(bare.hostname(), Some("127.0.0.1"));
    let zero = Uri::parse("tcp://127.0.0.1:0");
    assert_eq!(zero.port(), None);
    let none = Uri::parse("");
    assert_eq!(none.hostname(), None);
    assert_eq!(none.scheme(), "");
    assert_eq!(u.clone(), u);
}

#[test]
fn texts_compare_by_their_bytes() {
    assert_eq!(compare_text("", ""), Order::Equal);
    assert_eq!(compare_text("", "a"), Order::Less);
    assert_eq!(compare_text("a", ""), Order::Greater);
    assert_eq!(compare_text("abc", "abd"), Order::Less);
    assert_eq!(compare_text("abc", "ab"), Order::Greater);
    assert_eq!(compare_text("b", "abc"), Order::Greater);
    assert_eq!(compare_text("prices", "prices"), Order::Equal);
    assert_eq!(compare_text("z", "\u{e9}"), Order::Less);
    for (a, b) in [("a", "b"), ("ab", "a"), ("x", "x"), ("", "q"), ("\u{1f600}", "\u{e9}")] {
        let expected = match a.cmp(b) {
            Ordering::Less => Order::Less,
            Ordering::Equal => Order::Equal,
            Ordering::Greater => Order::Greater,
        };
        assert_eq!(compare_text(a, b), expected);
    }
    assert_eq!(compare_number(1, 2), Order::Less);
    assert_eq!(compare_number(2, 2), Order::Equal);
    assert_eq!(compare_number(u64::MAX, 0), Order::Greater);
}

#[test]
fn channels_are_ordered_by_name_direction_instance() {
    let c = |name: &str, instance: u64, t: ChannelType| {
        Channel::new(name.to_string(), instance, t, MsgFormat::Bincode)
    };
    let a = c("a", 5, ChannelType::Output);
    assert_eq!(a.order(&c("b", 0, ChannelType::Input)), Order::Less);
    assert_eq!(a.order(&c("a", 9, ChannelType::Input)), Order::Greater);
    assert_eq!(a.order(&c("a", 9, ChannelType::Output)), Order::Less);
    assert_eq!(a.order(&c("a", 5, ChannelType::Output)), Order::Equal);
    assert_eq!(a.order(&c("a", 4, ChannelType::Output)), Order::Greater);
    assert_eq!(a.partial_cmp(&c("b", 0, ChannelType::Input)), Some(Ordering::Less));
    assert_eq!(a.partial_cmp(&c("a", 5, ChannelType::Output)), Some(Ordering::Equal));
    assert!(a < c("a", 6, ChannelType::Output));
    assert!(a > c("a", 5, ChannelType::Input));
    assert!(a == c("a", 0, ChannelType::Input));
}

fn some_text(rng: &mut SmallRng) -> String {
    let alphabet = ['a', 'Z', '0', ':', '/', '.', ' ', '\u{e9}', '\u{4e2d}', '\u{1f600}', '\0', '\n'];
    let len = rng.gen_range(0, 12);
    (0..len).map(|_| alphabet[rng.gen_range(0, alphabet.len())]).collect()
}

fn some_channel(rng: &mut SmallRng) -> Channel {
    let addresses = (0..rng.gen_range(0, 4)).map(|_| Uri::parse(&some_text(rng))).collect();
    Channel {
        name: format!("c{}", some_text(rng)),
        instance: rng.gen(),
        channel_type: ChannelType::from_u8(rng.gen_range(0, 2)).unwrap(),
        encoding_type: MsgFormat::from_u8(rng.gen_range(0, 3)).unwrap(),
        addresses,
    }
}

#[test]
fn generated_messages_round_trip() {
    let mut rng = SmallRng::seed_from_u64(20);
    let states = [
        DiscoveryState::Connect,
        DiscoveryState::ConnectResponse,
        DiscoveryState::QueueData,
        DiscoveryState::Error,
    ];
    for _ in 0..300 {
        let channels = (0..rng.gen_range(0, 5)).map(|_| some_channel(&mut rng)).collect();
        let msg = DiscoveryMessage::new(
            states[rng.gen_range(0, 4)],
            Uri::parse(&some_text(&mut rng)),
            channels,
        );
        let bytes = encode_discovery(&msg).unwrap();
        let back = decode_discovery(&bytes).unwrap();
        assert!(same_message(&msg, &back));
        let frame = frame_discovery(&msg).unwrap();
        let (body, rest) = split_frame32(&frame).unwrap();
        assert_eq!(body, bytes.as_slice());
        assert!(rest.is_empty());

        let payload: Vec<u8> = (0..rng.gen_range(0, 40)).map(|_| rng.gen()).collect();
        let q = QueueMessage { channel_name: some_text(&mut rng), data: payload };
        let bytes = encode_queue_message(&q).unwrap();
        assert_eq!(decode_queue_message(&bytes), Ok(q.clone()));
        let frame = frame_queue_message(&q).unwrap();
        let (body, rest) = split_frame64(&frame).unwrap();
        assert_eq!(body, bytes.as_slice());
        assert!(rest.is_empty());
    }
}
