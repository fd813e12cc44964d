use net_lib::discovery_service::{
    connect_response, local_address, origin_with_port, port_text, process_msg, DiscoveryClient,
    DiscoveryServer,
    PORT_END, PORT_MIN, PORT_POLL_MILLIS, REANNOUNCE_SECS, RECONNECT_SECS,
};
use net_lib::error::{IoErrorKind, MeshError};
use net_lib::messages::{
    Channel, ChannelType, DiscoveryMessage, DiscoveryState, MsgFormat,
};
use net_lib::registry::ChannelRegistry;
use net_lib::tcp_sender::host_of;
use net_lib::uri::Uri;
use rand::rngs::SmallRng;
use rand::SeedableRng;

fn channel(name: &str, t: ChannelType) -> Channel {
    Channel::new(name.to_string(), 0, t, MsgFormat::Bincode)
}

fn keys(channels: &[Channel]) -> Vec<(String, ChannelType)> {
    channels.iter().map(|c| (c.name.clone(), c.channel_type)).collect()
}

fn message(state: DiscoveryState, uri: &str, channels: Vec<Channel>) -> DiscoveryMessage {
    DiscoveryMessage::new(state, Uri::parse(uri), channels)
}

#[test]
fn lookup() {
    let address = Uri::parse("tcp://abmac.local:80");
    let host = host_of(&address).expect("failed to resolve ip");
    assert_eq!(host, "abmac.local:80");
}

#[test]
fn port_text_is_decimal() {
    assert_eq!(port_text(0), "0");
    assert_eq!(port_text(7), "7");
    assert_eq!(port_text(10), "10");
    assert_eq!(port_text(1024), "1024");
    assert_eq!(port_text(65535), "65535");
    assert_eq!(port_text(40960), "40960");
}

#[test]
fn backoff_constants() {
    assert_eq!(RECONNECT_SECS, 5);
    assert_eq!(PORT_POLL_MILLIS, 100);
    assert_eq!(REANNOUNCE_SECS, 10);
    assert_eq!(PORT_MIN, 1024);
    assert_eq!(PORT_END, 65535);
}

#[test]
fn connect_without_port_gets_one() {
    let msg = message(DiscoveryState::Connect, "tcp://10.0.0.7/work", vec![channel("a", ChannelType::Input)]);
    let reply = connect_response(&msg, 5000);
    assert_eq!(reply.state, DiscoveryState::ConnectResponse);
    assert_eq!(reply.uri.as_str(), "tcp://10.0.0.7:5000/work");
    assert_eq!(reply.uri.port(), Some(5000));
    assert!(reply.channels.is_empty());
}

#[test]
fn connect_with_port_is_echoed() {
    let msg = message(DiscoveryState::Connect, "tcp://10.0.0.7:9000/work", vec![]);
    let reply = connect_response(&msg, 5000);
    assert_eq!(reply.state, DiscoveryState::ConnectResponse);
    assert_eq!(reply.uri.as_str(), "tcp://10.0.0.7:9000/work");
    assert!(reply.channels.is_empty());
}

#[test]
fn server_assigns_ports_in_range() {
    let server = DiscoveryServer::new();
    for seed in 0..200u64 {
        let mut rng = SmallRng::seed_from_u64(seed);
        let msg = message(DiscoveryState::Connect, "tcp://127.0.0.1", vec![]);
        let reply = server.on_connect(&msg, &mut rng);
        let port = reply.uri.port().expect("a port was assigned");
        assert!(port >= 1024 && port < 65535);
        assert_eq!(reply.uri.as_str(), format!("tcp://127.0.0.1:{}", port));
        let named = message(DiscoveryState::Connect, "tcp://127.0.0.1:77", vec![]);
        assert_eq!(server.on_connect(&named, &mut rng).uri.as_str(), "tcp://127.0.0.1:77");
    }
}

#[test]
fn registry_inserts_if_absent() {
    let mut r = ChannelRegistry::new();
    assert_eq!(r.len(), 0);
    let mut first = channel("a", ChannelType::Input);
    first.encoding_type = MsgFormat::Json;
    let second = channel("a", ChannelType::Input);
    assert!(r.insert(first));
    assert!(!r.insert(second));
    assert!(r.insert(channel("a", ChannelType::Output)));
    assert!(r.insert(channel("b", ChannelType::Input)));
    let mut other_instance = channel("a", ChannelType::Input);
    other_instance.instance = 1;
    assert!(r.insert(other_instance.clone()));
    let snap = r.snapshot();
    assert_eq!(
        keys(&snap),
        vec![
            ("a".to_string(), ChannelType::Input),
            ("a".to_string(), ChannelType::Output),
            ("b".to_string(), ChannelType::Input),
            ("a".to_string(), ChannelType::Input),
        ]
    );
    assert_eq!(snap[0].encoding_type, MsgFormat::Json);
    assert_eq!(snap[3].instance, 1);
    assert!(r.contains(&channel("b", ChannelType::Input)));
    assert!(!r.contains(&channel("b", ChannelType::Output)));
    assert!(r.remove(&channel("a", ChannelType::Input)));
    assert!(!r.remove(&channel("a", ChannelType::Input)));
    assert!(r.contains(&other_instance));
    assert_eq!(r.len(), 3);
}

#[test]
fn two_clients_merge_and_one_leaves() {
    let mut registry = ChannelRegistry::new();
    let mut rng = SmallRng::seed_from_u64(1);
    let mut one = DiscoveryServer::new();
    let mut two = DiscoveryServer::new();
    let a = vec![channel("a1", ChannelType::Output), channel("a2", ChannelType::Input)];
    let b = vec![channel("b1", ChannelType::Output)];

    let reply = one
        .handle(&message(DiscoveryState::QueueData, "tcp://h:1", a.clone()), &mut registry, &mut rng)
        .unwrap();
    assert_eq!(reply.state, DiscoveryState::QueueData);
    assert_eq!(reply.uri.as_str(), "tcp://h:1");
    assert_eq!(keys(&reply.channels), keys(&a));

    let reply = two
        .handle(&message(DiscoveryState::QueueData, "tcp://h:2", b.clone()), &mut registry, &mut rng)
        .unwrap();
    let mut all = a.clone();
    all.extend(b.clone());
    assert_eq!(keys(&reply.channels), keys(&all));
    assert_eq!(keys(&registry.snapshot()), keys(&all));

    let again = one
        .handle(&message(DiscoveryState::QueueData, "tcp://h:1", a.clone()), &mut registry, &mut rng)
        .unwrap();
    assert_eq!(keys(&again.channels), keys(&all));

    one.on_disconnect(&mut registry);
    assert_eq!(keys(&registry.snapshot()), keys(&b));
    two.on_disconnect(&mut registry);
    assert_eq!(registry.len(), 0);
}

#[test]
fn server_ignores_responses_and_errors() {
    let mut registry = ChannelRegistry::new();
    registry.insert(channel("x", ChannelType::Input));
    let mut rng = SmallRng::seed_from_u64(1);
    let mut server = DiscoveryServer::new();
    let cs = vec![channel("y", ChannelType::Input)];
    assert!(server
        .handle(&message(DiscoveryState::ConnectResponse, "tcp://h:1", cs.clone()), &mut registry, &mut rng)
        .is_none());
    assert!(server
        .handle(&message(DiscoveryState::Error, "tcp://h:1", cs.clone()), &mut registry, &mut rng)
        .is_none());
    assert_eq!(registry.len(), 1);
    let reply = server
        .handle(&message(DiscoveryState::Connect, "tcp://h", cs), &mut registry, &mut rng)
        .unwrap();
    assert_eq!(reply.state, DiscoveryState::ConnectResponse);
    assert_eq!(registry.len(), 1);
    server.on_disconnect(&mut registry);
    assert_eq!(registry.len(), 1);
}

#[test]
fn client_answers_by_state() {
    assert_eq!(local_address().as_str(), "tcp://127.0.0.1:0");
    let mine = vec![channel("prices", ChannelType::Output)];
    for (state, next) in [
        (DiscoveryState::Error, DiscoveryState::Connect),
        (DiscoveryState::Connect, DiscoveryState::ConnectResponse),
        (DiscoveryState::ConnectResponse, DiscoveryState::QueueData),
        (DiscoveryState::QueueData, DiscoveryState::QueueData),
    ] {
        let reply = process_msg(&message(state, "tcp://s:1", vec![]), mine.clone());
        assert_eq!(reply.state, next);
        assert_eq!(reply.uri.as_str(), "tcp://127.0.0.1:0");
        assert_eq!(keys(&reply.channels), keys(&mine));
    }
}

#[test]
fn client_merges_and_republishes() {
    let mine = vec![channel("prices", ChannelType::Output)];
    let mut client = DiscoveryClient::new(&mine);

    let hello = client.hello();
    assert_eq!(hello.state, DiscoveryState::Connect);
    assert_eq!(hello.uri.as_str(), "tcp://127.0.0.1:0");
    assert_eq!(keys(&hello.channels), keys(&mine));

    let step = client.on_message(&message(DiscoveryState::ConnectResponse, "tcp://127.0.0.1:4242", vec![]));
    assert_eq!(step.listen_port, Some(4242));
    assert_eq!(step.pause_secs, 10);
    assert_eq!(step.reply.state, DiscoveryState::QueueData);
    assert_eq!(keys(&step.reply.channels), keys(&mine));
    assert_eq!(keys(&step.routing.unwrap()), keys(&mine));

    let theirs = vec![channel("prices", ChannelType::Input), channel("prices", ChannelType::Output)];
    let step = client.on_message(&message(DiscoveryState::QueueData, "tcp://s:1", theirs));
    assert_eq!(step.listen_port, None);
    assert_eq!(step.reply.state, DiscoveryState::QueueData);
    let expected = vec![
        ("prices".to_string(), ChannelType::Output),
        ("prices".to_string(), ChannelType::Input),
    ];
    assert_eq!(keys(&step.reply.channels), expected);
    assert_eq!(keys(&step.routing.unwrap()), expected);

    let step = client.on_message(&message(DiscoveryState::Error, "tcp://s:1", vec![channel("z", ChannelType::Input)]));
    assert_eq!(step.reply.state, DiscoveryState::Connect);
    assert_eq!(step.pause_secs, 0);
    assert!(step.routing.is_none());
    assert_eq!(keys(&step.reply.channels), expected);
    let step = client.on_message(&message(DiscoveryState::Connect, "tcp://s:1", vec![]));
    assert_eq!(step.reply.state, DiscoveryState::ConnectResponse);
    assert!(step.routing.is_none());
}

#[test]
fn io_failures_become_network_errors() {
    assert_eq!(MeshError::from_io(IoErrorKind::NotFound), MeshError::NetworkError("entity not found"));
    assert_eq!(MeshError::from_io(IoErrorKind::PermissionDenied), MeshError::NetworkError("permission denied"));
    assert_eq!(MeshError::from_io(IoErrorKind::ConnectionRefused), MeshError::NetworkError("connection refused"));
    assert_eq!(MeshError::from_io(IoErrorKind::ConnectionReset), MeshError::NetworkError("connection reset"));
    assert_eq!(MeshError::from_io(IoErrorKind::ConnectionAborted), MeshError::NetworkError("connection aborted"));
    assert_eq!(MeshError::from_io(IoErrorKind::NotConnected), MeshError::NetworkError("not connected"));
    assert_eq!(MeshError::from_io(IoErrorKind::AddrInUse), MeshError::NetworkError("address in use"));
    assert_eq!(MeshError::from_io(IoErrorKind::AddrNotAvailable), MeshError::NetworkError("address not available"));
    assert_eq!(MeshError::from_io(IoErrorKind::BrokenPipe), MeshError::NetworkError("broken pipe"));
    assert_eq!(MeshError::from_io(IoErrorKind::AlreadyExists), MeshError::NetworkError("entity already exists"));
    assert_eq!(MeshError::from_io(IoErrorKind::WouldBlock), MeshError::NetworkError("operation would block"));
    assert_eq!(MeshError::from_io(IoErrorKind::InvalidInput), MeshError::NetworkError("invalid input parameter"));
    assert_eq!(MeshError::from_io(IoErrorKind::InvalidData), MeshError::NetworkError("invalid data"));
    assert_eq!(MeshError::from_io(IoErrorKind::TimedOut), MeshError::NetworkError("timed out"));
    assert_eq!(MeshError::from_io(IoErrorKind::WriteZero), MeshError::NetworkError("write zero"));
    assert_eq!(MeshError::from_io(IoErrorKind::Interrupted), MeshError::NetworkError("operation interrupted"));
    assert_eq!(MeshError::from_io(IoErrorKind::Other), MeshError::NetworkError("other os error"));
    assert_eq!(MeshError::from_io(IoErrorKind::UnexpectedEof), MeshError::NetworkError("unexpected end of file"));
    assert_eq!(MeshError::from_io(IoErrorKind::Unnamed), MeshError::UnknownError);
}

#[test]
fn origin_with_port_puts_the_parts_together() {
    assert_eq!(origin_with_port("tcp", "10.0.0.7", "/work", 5000), "tcp://10.0.0.7:5000/work");
    assert_eq!(origin_with_port("", "", "", 0), "://:0");
    assert_eq!(origin_with_port("udp", "user@h", "", 65535), "udp://user@h:65535");
}

#[test]
fn client_answer_to_queue_data_is_merged() {
    let mine = vec![channel("prices", ChannelType::Output), channel("news", ChannelType::Output)];
    let theirs = vec![
        channel("news", ChannelType::Output),
        channel("prices", ChannelType::Input),
        channel("ticks", ChannelType::Output),
    ];
    let reply = process_msg(&message(DiscoveryState::QueueData, "tcp://s:1", theirs.clone()), mine.clone());
    assert_eq!(reply.state, DiscoveryState::QueueData);
    assert_eq!(
        keys(&reply.channels),
        vec![
            ("prices".to_string(), ChannelType::Output),
            ("news".to_string(), ChannelType::Output),
            ("prices".to_string(), ChannelType::Input),
            ("ticks".to_string(), ChannelType::Output),
        ]
    );
    let reply = process_msg(&message(DiscoveryState::Connect, "tcp://s:1", theirs), mine.clone());
    assert_eq!(keys(&reply.channels), keys(&mine));
}
