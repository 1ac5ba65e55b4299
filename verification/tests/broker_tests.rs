use object_system::json::JsonValue;
use object_system::object::BusinessObject;
use object_system::server::{
    parse_subscription_request, subscription_reply, BusinessClient, DispatchOutcome, Server,
};
use object_system::subscription::{BusinessSubscription, BusinessSubscriptionError};

fn subscribe_request(rules: Vec<&str>) -> BusinessObject {
    let values: Vec<JsonValue> =
        rules.iter().map(|r| JsonValue::Str(r.to_string())).collect();
    BusinessObject {
        event: Some("routing/subscribe".to_string()),
        _type: None,
        size: None,
        payload: None,
        metadata: vec![("subscriptions".to_string(), JsonValue::Arr(values))],
    }
}

fn message(event: &str) -> BusinessObject {
    BusinessObject {
        event: Some(event.to_string()),
        _type: None,
        size: None,
        payload: None,
        metadata: Vec::new(),
    }
}

#[test]
fn subscribe_handshake_queues_a_reply_echoing_the_subscription() {
    let mut server = Server::new();
    let a = server.new_client(10).unwrap();
    let request = subscribe_request(vec!["*"]);
    match server.handle_incoming_object(a, &request, 11) {
        DispatchOutcome::Subscribed => {},
        _ => panic!("handshake should succeed"),
    }
    let client = server.client_for_token(a);
    assert_eq!(client.send_queue.len(), 1);
    let reply = &client.send_queue[0];
    assert_eq!(reply.event.as_deref(), Some("routing/subscribe/reply"));
    match &reply.metadata[0] {
        (key, JsonValue::Arr(items)) => {
            assert_eq!(key, "subscriptions");
            match &items[0] {
                JsonValue::Str(rule) => assert_eq!(rule, "*"),
                other => panic!("unexpected subscriptions shape: {:?}", other),
            }
        },
        other => panic!("unexpected metadata entry: {:?}", other),
    }
}

#[test]
fn subscribed_peer_receives_a_message_and_the_sender_does_not() {
    let mut server = Server::new();
    let a = server.new_client(0).unwrap();
    let b = server.new_client(0).unwrap();
    assert!(matches!(
        server.handle_incoming_object(a, &subscribe_request(vec!["*"]), 1),
        DispatchOutcome::Subscribed
    ));
    assert!(matches!(
        server.handle_incoming_object(b, &subscribe_request(vec!["*"]), 2),
        DispatchOutcome::Subscribed
    ));
    let ping = message("ping");
    match server.handle_incoming_object(a, &ping, 3) {
        DispatchOutcome::Routed(_) => {},
        _ => panic!("a subscribed sender's message should be routed"),
    }
    let receiver = server.client_for_token(b);
    assert_eq!(receiver.send_queue.len(), 2);
    assert_eq!(receiver.send_queue[1].event.as_deref(), Some("ping"));
    let sender = server.client_for_token(a);
    assert_eq!(sender.send_queue.len(), 1);
}

#[test]
fn routing_respects_each_peers_subscription() {
    let mut server = Server::new();
    let a = server.new_client(0).unwrap();
    let b = server.new_client(0).unwrap();
    let c = server.new_client(0).unwrap();
    server.handle_incoming_object(a, &subscribe_request(vec!["*"]), 1);
    server.handle_incoming_object(b, &subscribe_request(vec!["@routing/*"]), 2);
    server.handle_incoming_object(c, &subscribe_request(vec!["@services/*"]), 3);
    let announcement = message("routing/announcement");
    server.handle_incoming_object(a, &announcement, 4);
    assert_eq!(server.client_for_token(b).send_queue.len(), 2);
    assert_eq!(server.client_for_token(c).send_queue.len(), 1);
}

#[test]
fn bad_handshake_is_rejected() {
    let mut server = Server::new();
    let a = server.new_client(0).unwrap();
    let wrong_event = message("ping");
    assert!(matches!(
        server.handle_incoming_object(a, &wrong_event, 1),
        DispatchOutcome::Rejected
    ));
    let shutdown = server.reset_connection(a);
    assert!(!shutdown);
}

#[test]
fn handshake_parse_errors_name_the_missing_piece() {
    let no_event = BusinessObject {
        event: None,
        _type: None,
        size: None,
        payload: None,
        metadata: Vec::new(),
    };
    assert!(matches!(
        parse_subscription_request(&no_event),
        Err(BusinessSubscriptionError::SubscriptionNotEvent)
    ));
    let wrong_event = message("ping");
    assert!(matches!(
        parse_subscription_request(&wrong_event),
        Err(BusinessSubscriptionError::UnknownSubscriptionEvent)
    ));
    let missing_key = message("routing/subscribe");
    assert!(matches!(
        parse_subscription_request(&missing_key),
        Err(BusinessSubscriptionError::NoSubscriptionMetadataKey)
    ));
    let bad_shape = BusinessObject {
        event: Some("routing/subscribe".to_string()),
        _type: None,
        size: None,
        payload: None,
        metadata: vec![("subscriptions".to_string(), JsonValue::Num("7".to_string()))],
    };
    assert!(matches!(
        parse_subscription_request(&bad_shape),
        Err(BusinessSubscriptionError::JsonTypeError(_))
    ));
}

#[test]
fn in_reply_to_echoes_the_request_id() {
    let subs = BusinessSubscription::List(vec![BusinessSubscription::String("*".to_string())]);
    let mut request = subscribe_request(vec!["*"]);
    request.metadata.push(("id".to_string(), JsonValue::Str("q-42".to_string())));
    let reply = subscription_reply(&subs, &request);
    assert_eq!(reply.event.as_deref(), Some("routing/subscribe/reply"));
    assert_eq!(reply.metadata.len(), 2);
    match &reply.metadata[1] {
        (key, JsonValue::Str(id)) => {
            assert_eq!(key, "in-reply-to");
            assert_eq!(id, "q-42");
        },
        other => panic!("unexpected metadata entry: {:?}", other),
    }
}

#[test]
fn write_results_drive_the_send_queue_in_order() {
    let mut client = BusinessClient::new(2, 0);
    client.send_object(message("one"));
    client.send_object(message("two"));
    assert!(client.interest.writable);
    let first = client.peek_outgoing().unwrap();
    assert!(first.len() > 0);
    client.on_write_result(false);
    assert_eq!(client.send_queue.len(), 2);
    client.on_write_result(true);
    assert_eq!(client.send_queue.len(), 1);
    assert_eq!(client.send_queue[0].event.as_deref(), Some("two"));
    client.on_write_result(true);
    assert_eq!(client.send_queue.len(), 0);
    assert!(!client.interest.writable);
}

#[test]
fn full_registry_turns_new_peers_away() {
    let mut server = Server::new();
    let mut seen = 0;
    while let Some(_) = server.new_client(0) {
        seen += 1;
        if seen > 200 {
            panic!("the registry should be bounded");
        }
    }
    assert_eq!(seen, 128);
}
