use net_lib::msg_serde::{frame_queue_message, split_frame64};
use net_lib::discovery_service::{DiscoveryClient, DiscoveryServer};
use net_lib::tcp_listener::TcpTransportListener;
use net_lib::messages::{
    Channel, ChannelType, DiscoveryMessage, DiscoveryState, MsgFormat, QueueMessage,
};
use net_lib::outbox::Outbox;
use net_lib::queues::{BurstQueue, LastValueQueue, OutputQueue};
use net_lib::registry::ChannelRegistry;
use net_lib::tcp_sender::{host_of, host_text, Connect, SendAction, TcpTransportSender};
use net_lib::uri::Uri;
use net_lib::wire::DecodeError;
use rand::rngs::SmallRng;
use rand::SeedableRng;

fn channel(name: &str, addresses: &[&str]) -> Channel {
    Channel {
        name: name.to_string(),
        instance: 0,
        channel_type: ChannelType::Input,
        encoding_type: MsgFormat::Bincode,
        addresses: addresses.iter().map(|a| Uri::parse(a)).collect(),
    }
}

#[test]
fn queue_insert_db() {
    let mut outbox = Outbox::new();
    outbox.insert("hello".to_string(), b"test data".to_vec());
    let res = outbox.drain_all("hello");
    assert!(res.len() == 1);
    assert_eq!(res[0], b"test data".to_vec());
    assert!(outbox.drain_all("hello").is_empty());
}

#[test]
fn outbox_is_first_in_first_out_by_channel() {
    let mut outbox = Outbox::new();
    outbox.insert("a".to_string(), vec![1]);
    outbox.insert("b".to_string(), vec![2]);
    outbox.insert("a".to_string(), vec![3]);
    outbox.insert("c".to_string(), vec![]);
    outbox.insert("a".to_string(), vec![4]);
    assert_eq!(outbox.len(), 5);
    assert!(outbox.drain_all("x").is_empty());
    assert_eq!(outbox.drain_all("a"), vec![vec![1], vec![3], vec![4]]);
    assert_eq!(outbox.len(), 2);
    assert!(outbox.drain_all("a").is_empty());
    assert_eq!(outbox.drain_all("c"), vec![Vec::<u8>::new()]);
    assert_eq!(outbox.drain_all("b"), vec![vec![2]]);
    assert_eq!(outbox.len(), 0);
}

#[test]
fn host_of_needs_host_and_port() {
    assert_eq!(host_of(&Uri::parse("tcp://Example.com:8080/x")), Some("example.com:8080".to_string()));
    assert_eq!(host_of(&Uri::parse("tcp://example.com")), None);
    assert_eq!(host_of(&Uri::parse("tcp://:8080")), None);
    assert_eq!(host_of(&Uri::parse("")), None);
}

#[test]
fn send_without_route_is_stored_and_replayed_once() {
    let mut sender = TcpTransportSender::new();
    assert_eq!(sender.resolve("prices"), None);
    assert_eq!(sender.send("prices".to_string(), vec![1]), SendAction::Stored);
    assert_eq!(sender.send("other".to_string(), vec![9]), SendAction::Stored);
    assert_eq!(sender.send("prices".to_string(), vec![2]), SendAction::Stored);
    assert_eq!(sender.outbox_len(), 3);

    let connects = sender.on_routing_update(&vec![channel("prices", &["tcp://10.0.0.1:7000"])]);
    assert_eq!(connects, vec![Connect { destination: 0, host: "10.0.0.1:7000".to_string() }]);
    assert!(!sender.is_live(0));
    assert_eq!(sender.resolve("prices"), None);
    assert_eq!(sender.send("prices".to_string(), vec![3]), SendAction::Stored);

    let replay = sender.on_connected(0);
    assert_eq!(
        replay,
        vec![
            QueueMessage { channel_name: "prices".to_string(), data: vec![1] },
            QueueMessage { channel_name: "prices".to_string(), data: vec![2] },
            QueueMessage { channel_name: "prices".to_string(), data: vec![3] },
        ]
    );
    assert!(sender.is_live(0));
    assert_eq!(sender.outbox_len(), 1);
    assert!(sender.on_connected(0).is_empty());
    assert_eq!(
        sender.send("prices".to_string(), vec![4]),
        SendAction::Write {
            destination: 0,
            message: QueueMessage { channel_name: "prices".to_string(), data: vec![4] },
        }
    );
    assert_eq!(sender.outbox_len(), 1);
}

#[test]
fn routing_update_groups_channels_by_destination() {
    let mut sender = TcpTransportSender::new();
    let update = vec![
        channel("a", &["tcp://h1:1", "tcp://h2:2", "tcp://unresolved"]),
        channel("b", &["tcp://h1:1"]),
        channel("c", &[]),
    ];
    let connects = sender.on_routing_update(&update);
    assert_eq!(
        connects,
        vec![
            Connect { destination: 0, host: "h1:1".to_string() },
            Connect { destination: 1, host: "h2:2".to_string() },
        ]
    );
    assert_eq!(sender.destination_count(), 2);
    assert!(sender.on_routing_update(&update).is_empty());
    assert_eq!(sender.destination_count(), 2);

    sender.send("b".to_string(), vec![1]);
    sender.send("a".to_string(), vec![2]);
    sender.send("c".to_string(), vec![3]);
    let replay = sender.on_connected(1);
    assert_eq!(replay, vec![QueueMessage { channel_name: "a".to_string(), data: vec![2] }]);
    assert_eq!(sender.resolve("a"), Some(1));
    assert_eq!(sender.resolve("b"), None);
    let replay = sender.on_connected(0);
    assert_eq!(replay, vec![QueueMessage { channel_name: "b".to_string(), data: vec![1] }]);
    assert_eq!(sender.resolve("a"), Some(0));
    assert_eq!(sender.resolve("b"), Some(0));
    assert_eq!(sender.resolve("c"), None);
    assert_eq!(sender.outbox_len(), 1);
    assert!(sender.on_connected(5).is_empty());
}

#[test]
fn failure_falls_back_to_the_other_destination_or_the_outbox() {
    let mut sender = TcpTransportSender::new();
    sender.on_routing_update(&vec![
        channel("a", &["tcp://h1:1", "tcp://h2:2"]),
        channel("b", &["tcp://h1:1"]),
    ]);
    sender.on_connected(0);
    sender.on_connected(1);
    assert_eq!(sender.resolve("a"), Some(0));
    sender.on_failed(0);
    assert!(!sender.is_live(0));
    assert_eq!(sender.destination_count(), 1);
    assert_eq!(sender.resolve("a"), Some(1));
    assert_eq!(sender.resolve("b"), None);
    assert_eq!(sender.send("b".to_string(), vec![7]), SendAction::Stored);
    sender.on_failed(0);
    sender.on_failed(9);
    assert_eq!(sender.destination_count(), 1);

    let connects = sender.on_routing_update(&vec![channel("b", &["tcp://h1:1"])]);
    assert_eq!(connects, vec![Connect { destination: 2, host: "h1:1".to_string() }]);
    assert_eq!(sender.resolve("b"), None);
    let replay = sender.on_connected(2);
    assert_eq!(replay, vec![QueueMessage { channel_name: "b".to_string(), data: vec![7] }]);
    assert_eq!(sender.resolve("b"), Some(2));
    sender.on_failed(1);
    assert_eq!(sender.resolve("a"), None);
}

#[test]
fn restore_puts_messages_back() {
    let mut sender = TcpTransportSender::new();
    sender.restore("a".to_string(), vec![1]);
    sender.restore("a".to_string(), vec![2]);
    assert_eq!(sender.outbox_len(), 2);
    sender.on_routing_update(&vec![channel("a", &["tcp://h:1"])]);
    let replay = sender.on_connected(0);
    assert_eq!(replay.len(), 2);
    assert_eq!(replay[0].data, vec![1]);
    assert_eq!(replay[1].data, vec![2]);
}

#[test]
fn listener_dispatches_by_channel() {
    let mut listener: TcpTransportListener<BurstQueue<Vec<u8>>> = TcpTransportListener::new();
    let a0 = listener.register_sink("a".to_string(), BurstQueue::new("channel1".to_string(), "myservice".to_string()));
    let b0 = listener.register_sink("b".to_string(), BurstQueue::new("channel1".to_string(), "myservice".to_string()));
    let a1 = listener.add_producer("a".to_string(), BurstQueue::new("channel1".to_string(), "myservice".to_string()));
    assert_eq!((a0, b0, a1), (0, 1, 2));
    let msg = QueueMessage { channel_name: "a".to_string(), data: vec![1, 2] };
    assert_eq!(listener.dispatch(&msg), 2);
    let unknown = QueueMessage { channel_name: "zzz".to_string(), data: vec![3] };
    assert_eq!(listener.dispatch(&unknown), 0);
    assert_eq!(listener.sink(a0).len(), 1);
    assert_eq!(listener.sink(b0).len(), 0);
    assert_eq!(listener.sink(a1).len(), 1);
    let mut taken = listener.replace_sink(a1, BurstQueue::new("channel1".to_string(), "myservice".to_string()));
    assert_eq!(taken.poll(), vec![vec![1, 2]]);
    assert_eq!(listener.sink(a1).len(), 0);
}

#[test]
fn listener_drops_frames_it_cannot_decode() {
    let mut listener: TcpTransportListener<LastValueQueue<Vec<u8>>> = TcpTransportListener::new();
    let i = listener.register_sink("a".to_string(), LastValueQueue::new("channel1".to_string(), "myservice".to_string()));
    assert_eq!(listener.on_frame(&[1, 0, 0]), Err(DecodeError::Truncated));
    assert_eq!(listener.on_frame(&[1, 0, 0, 0, 0xff, 0, 0, 0, 0, 0, 0, 0, 0]), Err(DecodeError::InvalidUtf8));
    assert!(!listener.sink(i).is_ready());
    let frame = frame_queue_message(&QueueMessage { channel_name: "a".to_string(), data: vec![8] }).unwrap();
    let (body, _) = split_frame64(&frame).unwrap();
    assert_eq!(listener.on_frame(body), Ok(1));
    let mut sink = listener.replace_sink(i, LastValueQueue::new("channel1".to_string(), "myservice".to_string()));
    assert_eq!(sink.poll(), Some(vec![8]));
}

#[test]
fn end_to_end_prices() {
    // The discovery server and its registry.
    let mut registry = ChannelRegistry::new();
    let mut rng = SmallRng::seed_from_u64(7);
    let mut for_a = DiscoveryServer::new();
    let mut for_b = DiscoveryServer::new();

    // Service B registers the input channel and is assigned a port.
    let connect = DiscoveryMessage::new(DiscoveryState::Connect, Uri::parse("tcp://127.0.0.1"), vec![]);
    let response = for_b.handle(&connect, &mut registry, &mut rng).unwrap();
    let mut client_b = DiscoveryClient::new(&vec![]);
    let step = client_b.on_message(&response);
    let port = step.listen_port.expect("the server assigned a port");
    assert!(port >= 1024 && port < 65535);
    let address = format!("tcp://127.0.0.1:{}", port);
    let mut input = channel("prices", &[address.as_str()]);
    input.channel_type = ChannelType::Input;
    let announce_b = DiscoveryMessage::new(DiscoveryState::QueueData, Uri::parse(&address), vec![input]);
    for_b.handle(&announce_b, &mut registry, &mut rng).unwrap();
    let mut listener: TcpTransportListener<BurstQueue<Vec<u8>>> = TcpTransportListener::new();
    let sink = listener.register_sink("prices".to_string(), BurstQueue::new("channel1".to_string(), "myservice".to_string()));

    // Service A registers the output channel and learns where the input is.
    let mut output = channel("prices", &[]);
    output.channel_type = ChannelType::Output;
    let mut client_a = DiscoveryClient::new(&vec![output.clone()]);
    let announce_a = DiscoveryMessage::new(DiscoveryState::QueueData, Uri::parse("tcp://127.0.0.1:1"), vec![output]);
    let snapshot = for_a.handle(&announce_a, &mut registry, &mut rng).unwrap();
    let step = client_a.on_message(&snapshot);
    let update = step.routing.expect("a routing update");

    // A publishes 42 before the connection is up, then the connection comes up.
    let mut sender = TcpTransportSender::new();
    let mut prices: OutputQueue<i64> = OutputQueue::new("myservice".to_string());
    prices.tcp_sink("prices".to_string());
    let local = prices.lv_input_queue("channel1".to_string());
    let payload = bincode::serialize(&42i64).unwrap();
    let mut wire: Vec<u8> = vec![];
    for m in prices.send(42, &payload) {
        match sender.send(m.channel_name, m.data) {
            SendAction::Write { message, .. } => wire.extend(frame_queue_message(&message).unwrap()),
            SendAction::Stored => {}
        }
    }
    assert!(wire.is_empty());
    let connects = sender.on_routing_update(&update);
    assert_eq!(connects.len(), 1);
    assert_eq!(connects[0].host, format!("127.0.0.1:{}", port));
    for m in sender.on_connected(connects[0].destination) {
        wire.extend(frame_queue_message(&m).unwrap());
    }
    let second = bincode::serialize(&43i64).unwrap();
    for m in prices.send(43, &second) {
        match sender.send(m.channel_name, m.data) {
            SendAction::Write { message, .. } => wire.extend(frame_queue_message(&message).unwrap()),
            SendAction::Stored => panic!("the destination is live"),
        }
    }
    assert_eq!(prices.poll_last_value(local), Some(43));

    // B reads the frames off the connection.
    let mut rest = wire.as_slice();
    let mut frames = 0;
    while let Some((body, after)) = split_frame64(rest) {
        assert_eq!(listener.on_frame(body), Ok(1));
        rest = after;
        frames += 1;
    }
    assert_eq!(frames, 2);
    assert!(rest.is_empty());
    let mut queue = listener.replace_sink(sink, BurstQueue::new("channel1".to_string(), "myservice".to_string()));
    let got: Vec<i64> = queue.poll().iter().map(|p| bincode::deserialize::<i64>(p).unwrap()).collect();
    assert_eq!(got, vec![42, 43]);
}

#[test]
fn host_text_joins_host_and_port() {
    assert_eq!(host_text("example.com", 80), "example.com:80");
    assert_eq!(host_text("", 0), ":0");
}

#[test]
fn route_to_host_registers_a_destination_once() {
    let mut sender = TcpTransportSender::new();
    assert_eq!(
        sender.route_to_host("a", "h:1".to_string()),
        Some(Connect { destination: 0, host: "h:1".to_string() })
    );
    assert_eq!(sender.route_to_host("a", "h:1".to_string()), None);
    assert_eq!(sender.route_to_host("b", "h:1".to_string()), None);
    assert_eq!(
        sender.route_to_host("a", "h:2".to_string()),
        Some(Connect { destination: 1, host: "h:2".to_string() })
    );
    assert_eq!(sender.destination_count(), 2);
    sender.on_connected(1);
    assert_eq!(sender.resolve("a"), Some(1));
    assert_eq!(sender.resolve("b"), None);
    sender.on_connected(0);
    assert_eq!(sender.resolve("a"), Some(0));
    assert_eq!(sender.resolve("b"), Some(0));
}
