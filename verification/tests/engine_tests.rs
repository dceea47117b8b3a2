use ws_inspector::address::{IpAddress, SocketAddress};
use ws_inspector::engine::Engine;
use ws_inspector::error::ServerError;
use ws_inspector::messages::{
    convert, Action, Direction, Event, MessageType, ServerStatus,
};

fn local(port: u16) -> SocketAddress {
    SocketAddress { ip: IpAddress::V4 { a: 127, b: 0, c: 0, d: 1 }, port }
}

fn started_engine() -> Engine {
    let mut engine = Engine::new();
    engine.begin_start("127.0.0.1:9001").unwrap();
    engine.bind_succeeded(local(9001));
    engine
}

fn connect(engine: &mut Engine, port: u16) -> usize {
    let (id, _) = engine.user_connected(
        Some(local(port)),
        String::new(),
        Vec::new(),
        Vec::new(),
    );
    id
}

#[test]
fn fresh_engine_is_stopped() {
    let engine = Engine::new();
    assert_eq!(engine.status(), ServerStatus::Stopped);
    assert_eq!(engine.connection_count(), 0);
    assert_eq!(engine.next_identifier(), 1);
}

#[test]
fn stop_without_server_fails() {
    let mut engine = Engine::new();
    let e = engine.stop_server().unwrap_err();
    assert_eq!(e.message(), "StatusError: Server already stopped");
    assert_eq!(engine.status(), ServerStatus::Stopped);
}

#[test]
fn start_reports_starting_then_started() {
    let mut engine = Engine::new();
    let (addr, event) = engine.begin_start("127.0.0.1:9001").unwrap();
    assert_eq!(addr, local(9001));
    assert_eq!(event, Event::ServerStatus { status: ServerStatus::Starting });
    assert_eq!(engine.status(), ServerStatus::Starting);
    let event = engine.bind_succeeded(local(9001));
    assert_eq!(
        event,
        Event::ServerStatus { status: ServerStatus::Started { address: local(9001) } }
    );
    assert_eq!(engine.status(), ServerStatus::Started { address: local(9001) });
}

#[test]
fn start_rejects_malformed_address() {
    let mut engine = Engine::new();
    let e = engine.begin_start("not an address").unwrap_err();
    assert!(matches!(e, ServerError::AddressError(_)));
    assert_eq!(engine.status(), ServerStatus::Stopped);
}

#[test]
fn check_and_start_agree_on_rejection() {
    let mut engine = Engine::new();
    let checked = ws_inspector::address::check_server("999.0.0.1:80").unwrap_err();
    let started = engine.begin_start("999.0.0.1:80").unwrap_err();
    assert_eq!(checked, started);
}

#[test]
fn start_twice_fails_and_leaves_server_running() {
    let mut engine = started_engine();
    let e = engine.begin_start("127.0.0.1:9002").unwrap_err();
    assert_eq!(e.message(), "StatusError: Server already started");
    assert_eq!(engine.status(), ServerStatus::Started { address: local(9001) });
}

#[test]
fn bind_failure_releases_server() {
    let mut engine = Engine::new();
    engine.begin_start("127.0.0.1:80").unwrap();
    let e = engine.bind_failed("address in use".to_string());
    assert_eq!(e.message(), "BindError: address in use");
    assert_eq!(engine.status(), ServerStatus::Stopped);
    engine.begin_start("127.0.0.1:81").unwrap();
}

#[test]
fn identifiers_increase_and_are_never_reused() {
    let mut engine = started_engine();
    let a = connect(&mut engine, 40001);
    let b = connect(&mut engine, 40002);
    let c = connect(&mut engine, 40003);
    assert_eq!((a, b, c), (1, 2, 3));
    engine.client_closed(b, None);
    engine.client_closed(a, None);
    let d = connect(&mut engine, 40004);
    assert_eq!(d, 4);
    assert_eq!(engine.connection_count(), 2);
}

#[test]
fn connect_event_carries_handshake_metadata() {
    let mut engine = started_engine();
    let query = vec![("q".to_string(), "1".to_string())];
    let headers = vec![
        ("accept".to_string(), "text/html".to_string()),
        ("cookie".to_string(), "a=1".to_string()),
        ("cookie".to_string(), "b=2".to_string()),
    ];
    let grouped = convert(&headers);
    let (id, event) = engine.user_connected(
        Some(local(40001)),
        "inspect/path".to_string(),
        query.clone(),
        grouped,
    );
    match event {
        Event::ClientConnect { message } => {
            assert_eq!(message.client.identifier, id);
            assert_eq!(message.client.address, Some(local(40001)));
            assert_eq!(message.tail, "inspect/path");
            assert_eq!(message.query, query);
            assert_eq!(
                message.headers,
                vec![
                    ("accept".to_string(), vec!["text/html".to_string()]),
                    ("cookie".to_string(), vec!["a=1".to_string(), "b=2".to_string()]),
                ]
            );
        },
        other => panic!("expected a connect event, got {:?}", other),
    }
}

#[test]
fn convert_groups_values_in_order() {
    let pairs = vec![
        ("a".to_string(), "1".to_string()),
        ("b".to_string(), "2".to_string()),
        ("a".to_string(), "3".to_string()),
    ];
    assert_eq!(
        convert(&pairs),
        vec![
            ("a".to_string(), vec!["1".to_string(), "3".to_string()]),
            ("b".to_string(), vec!["2".to_string()]),
        ]
    );
    assert_eq!(convert(&Vec::new()), Vec::new());
}

#[test]
fn classify_orders_frame_kinds() {
    assert_eq!(
        MessageType::classify(true, false, false, false, "hi".to_string(), Vec::new()),
        MessageType::TEXT { msg: "hi".to_string() }
    );
    assert_eq!(
        MessageType::classify(false, true, false, false, String::new(), vec![1, 2]),
        MessageType::BINARY { msg: vec![1, 2] }
    );
    assert_eq!(
        MessageType::classify(false, false, true, false, String::new(), vec![3]),
        MessageType::PING { msg: vec![3] }
    );
    assert_eq!(
        MessageType::classify(false, false, false, true, String::new(), vec![4]),
        MessageType::PONG { msg: vec![4] }
    );
    assert_eq!(
        MessageType::classify(false, false, false, false, String::new(), vec![5]),
        MessageType::FRAME { msg: vec![5] }
    );
}

#[test]
fn inbound_frames_are_relayed_in_order() {
    let mut engine = started_engine();
    let id = connect(&mut engine, 40001);
    let frames = vec![
        MessageType::TEXT { msg: "one".to_string() },
        MessageType::BINARY { msg: vec![1, 2, 3] },
        MessageType::PING { msg: vec![9] },
        MessageType::PONG { msg: vec![9] },
        MessageType::FRAME { msg: vec![0xff] },
    ];
    let mut events = Vec::new();
    for frame in &frames {
        events.push(engine.client_frame(id, frame.clone()));
    }
    assert_eq!(events.len(), frames.len());
    for (event, frame) in events.iter().zip(frames.iter()) {
        match event {
            Event::ClientMessage { message } => {
                assert_eq!(message.client.identifier, id);
                assert_eq!(message.direction, Direction::CLIENT);
                assert_eq!(&message.message, frame);
            },
            other => panic!("expected a message event, got {:?}", other),
        }
    }
}

#[test]
fn send_text_queues_frame_and_reports_server_message() {
    let mut engine = started_engine();
    let id = connect(&mut engine, 40001);
    let (action, event) = engine.send_text(id, "pong".to_string()).unwrap();
    assert_eq!(
        action,
        Action::SendFrame { identifier: id, frame: MessageType::TEXT { msg: "pong".to_string() } }
    );
    match event {
        Event::ClientMessage { message } => {
            assert_eq!(message.client.identifier, id);
            assert_eq!(message.direction, Direction::SERVER);
            assert_eq!(message.message, MessageType::TEXT { msg: "pong".to_string() });
        },
        other => panic!("expected a message event, got {:?}", other),
    }
}

#[test]
fn send_text_to_unknown_id_is_not_found() {
    let mut engine = started_engine();
    connect(&mut engine, 40001);
    let e = engine.send_text(77, "hello".to_string()).unwrap_err();
    assert_eq!(e.message(), "StatusError: Client not found.");
}

#[test]
fn send_text_without_server_fails() {
    let engine = Engine::new();
    let e = engine.send_text(1, "hello".to_string()).unwrap_err();
    assert_eq!(e.message(), "StatusError: Server already stopped.");
}

#[test]
fn close_client_queues_close_frame() {
    let mut engine = started_engine();
    let id = connect(&mut engine, 40001);
    let action = engine.close_client(id, 1000, "done".to_string()).unwrap();
    match action {
        Action::SendClose { identifier, frame } => {
            assert_eq!(identifier, id);
            let frame = frame.unwrap();
            assert_eq!(frame.code, 1000);
            assert_eq!(frame.reason, "done");
        },
        other => panic!("expected a close action, got {:?}", other),
    }
    let e = engine.close_client(99, 1000, "done".to_string()).unwrap_err();
    assert_eq!(e.message(), "StatusError: Client not found.");
}

#[test]
fn disconnect_carries_close_frame() {
    let mut engine = started_engine();
    let id = connect(&mut engine, 40001);
    let event = engine.client_closed(
        id,
        Some(ws_inspector::messages::CloseFrame { code: 1001, reason: "away".to_string() }),
    );
    match event {
        Event::ClientDisconnect { message } => {
            assert_eq!(message.client.identifier, id);
            let frame = message.message.unwrap();
            assert_eq!(frame.code, 1001);
            assert_eq!(frame.reason, "away");
        },
        other => panic!("expected a disconnect event, got {:?}", other),
    }
    assert_eq!(engine.connection_count(), 0);
}

#[test]
fn stop_drains_every_connection() {
    let mut engine = started_engine();
    let a = connect(&mut engine, 40001);
    let b = connect(&mut engine, 40002);
    let c = connect(&mut engine, 40003);
    let (actions, event) = engine.stop_server().unwrap();
    assert_eq!(event, Event::ServerStatus { status: ServerStatus::Stopping });
    assert_eq!(
        actions,
        vec![
            Action::SendClose { identifier: a, frame: None },
            Action::SendClose { identifier: b, frame: None },
            Action::SendClose { identifier: c, frame: None },
        ]
    );
    let mut disconnects: usize = 0;
    for id in [a, b, c] {
        match engine.client_closed(id, None) {
            Event::ClientDisconnect { message } => {
                assert_eq!(message.client.identifier, id);
                disconnects += 1;
            },
            other => panic!("expected a disconnect event, got {:?}", other),
        }
    }
    assert_eq!(disconnects, 3);
    assert_eq!(engine.connection_count(), 0);
    let event = engine.stop_complete();
    assert_eq!(event, Event::ServerStatus { status: ServerStatus::Stopped });
    assert_eq!(engine.status(), ServerStatus::Stopped);
}

#[test]
fn stop_while_still_binding_fails() {
    let mut engine = Engine::new();
    engine.begin_start("127.0.0.1:9001").unwrap();
    let e = engine.stop_server().unwrap_err();
    assert_eq!(e.message(), "StatusError: Server already stopped");
    assert_eq!(engine.status(), ServerStatus::Starting);
}

#[test]
fn close_client_without_server_fails() {
    let engine = Engine::new();
    let e = engine.close_client(1, 1000, "bye".to_string()).unwrap_err();
    assert_eq!(e.message(), "StatusError: Server already stopped.");
}

#[test]
fn round_trip_scenario() {
    let mut engine = Engine::new();
    let (requested, _) = engine.begin_start("127.0.0.1:0").unwrap();
    assert_eq!(requested.port, 0);
    // The operating system answers an ephemeral-port bind with a concrete
    // nonzero port; the engine reports that bound address.
    let bound = local(49152);
    let event = engine.bind_succeeded(bound);
    assert_eq!(event, Event::ServerStatus { status: ServerStatus::Started { address: bound } });
    assert_ne!(bound.port, 0);

    let (id, event) = engine.user_connected(
        Some(local(50000)),
        String::new(),
        Vec::new(),
        Vec::new(),
    );
    assert!(matches!(event, Event::ClientConnect { .. }));

    let event = engine.client_frame(id, MessageType::TEXT { msg: "ping".to_string() });
    match event {
        Event::ClientMessage { message } => {
            assert_eq!(message.direction, Direction::CLIENT);
            assert_eq!(message.message, MessageType::TEXT { msg: "ping".to_string() });
        },
        other => panic!("expected a message event, got {:?}", other),
    }

    let (action, event) = engine.send_text(id, "pong".to_string()).unwrap();
    assert_eq!(
        action,
        Action::SendFrame {
            identifier: id,
            frame: MessageType::TEXT { msg: "pong".to_string() },
        }
    );
    match event {
        Event::ClientMessage { message } => {
            assert_eq!(message.direction, Direction::SERVER);
            assert_eq!(message.message, MessageType::TEXT { msg: "pong".to_string() });
        },
        other => panic!("expected a message event, got {:?}", other),
    }

    let (actions, _) = engine.stop_server().unwrap();
    assert_eq!(actions, vec![Action::SendClose { identifier: id, frame: None }]);
    let event = engine.client_closed(id, None);
    match event {
        Event::ClientDisconnect { message } => assert_eq!(message.client.identifier, id),
        other => panic!("expected a disconnect event, got {:?}", other),
    }
    let event = engine.stop_complete();
    assert_eq!(event, Event::ServerStatus { status: ServerStatus::Stopped });
}
