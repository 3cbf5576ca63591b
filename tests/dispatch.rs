use amqprs::dispatcher::{Action, ConsumerMessage, Dispatcher, Inbound};
use amqprs::error::AmqpError;

fn deliver(d: &mut Dispatcher, tag: &str, delivery_tag: u64, body: &[u8]) -> Vec<Action> {
    assert!(d
        .handle(Inbound::Deliver { consumer_tag: tag.to_string(), delivery_tag })
        .is_empty());
    assert!(d
        .handle(Inbound::ContentHeader { body_size: body.len() as u64, properties: vec![] })
        .is_empty());
    d.handle(Inbound::ContentBody(body.to_vec()))
}

fn msg(tag: &str, delivery_tag: u64, body: &[u8]) -> ConsumerMessage {
    ConsumerMessage {
        consumer_tag: tag.to_string(),
        delivery_tag,
        properties: vec![],
        body: body.to_vec(),
    }
}

#[test]
fn consumer_race_buffers_then_flushes_in_order() {
    let mut d = Dispatcher::new();
    assert!(deliver(&mut d, "T1", 1, b"first").is_empty());
    assert!(deliver(&mut d, "T1", 2, b"second").is_empty());
    let flushed = d.register_consumer("T1".to_string());
    assert_eq!(flushed, vec![msg("T1", 1, b"first"), msg("T1", 2, b"second")]);
    let later = deliver(&mut d, "T1", 3, b"third");
    assert_eq!(later, vec![Action::Deliver(msg("T1", 3, b"third"))]);
}

#[test]
fn server_close_mid_rpc_fails_waiter() {
    let mut d = Dispatcher::new();
    d.register_rpc(50, 11).unwrap();
    let acts = d.handle(Inbound::CloseChannel { code: 404, text: "NOT_FOUND".to_string() });
    assert_eq!(
        acts,
        vec![
            Action::FailWaiters {
                waiters: vec![(50, 11)],
                error: AmqpError::ChannelClosed { code: 404, text: "NOT_FOUND".to_string() },
            },
            Action::SendCloseOk,
            Action::Exit,
        ]
    );
    // nothing follows close-ok
    assert!(deliver(&mut d, "T1", 1, b"late").is_empty());
    assert!(d.handle(Inbound::Reply { class_id: 50, method_id: 11, args: vec![] }).is_empty());
    assert!(d.register_consumer("T1".to_string()).is_empty());
}

#[test]
fn declare_then_get() {
    let mut d = Dispatcher::new();
    d.register_rpc(50, 11).unwrap();
    let declare_ok = vec![1, b'q', 0, 0, 0, 0, 0, 0, 0, 0];
    assert_eq!(
        d.handle(Inbound::Reply { class_id: 50, method_id: 11, args: declare_ok.clone() }),
        vec![Action::Reply { class_id: 50, method_id: 11, args: declare_ok.clone() }]
    );
    // a reply nobody waits for is dropped
    assert!(d.handle(Inbound::Reply { class_id: 50, method_id: 11, args: declare_ok }).is_empty());

    let body = vec![0xc5u8; 100];
    assert!(d.handle(Inbound::GetOk { delivery_tag: 1 }).is_empty());
    assert!(d
        .handle(Inbound::ContentHeader { body_size: 100, properties: vec![] })
        .is_empty());
    let acts = d.handle(Inbound::ContentBody(body.clone()));
    assert_eq!(acts, vec![Action::GetMessage(msg("", 1, &body))]);
    assert_eq!(d.handle(Inbound::GetEmpty), vec![Action::GetEmpty]);
}

#[test]
fn body_in_several_frames() {
    let mut d = Dispatcher::new();
    assert!(d.register_consumer("c".to_string()).is_empty());
    d.handle(Inbound::Deliver { consumer_tag: "c".to_string(), delivery_tag: 9 });
    d.handle(Inbound::ContentHeader { body_size: 6, properties: vec![1] });
    assert!(d.handle(Inbound::ContentBody(vec![1, 2, 3])).is_empty());
    let acts = d.handle(Inbound::ContentBody(vec![4, 5, 6]));
    assert_eq!(
        acts,
        vec![Action::Deliver(ConsumerMessage {
            consumer_tag: "c".to_string(),
            delivery_tag: 9,
            properties: vec![1],
            body: vec![1, 2, 3, 4, 5, 6],
        })]
    );
}

#[test]
fn second_rpc_for_same_reply_is_refused() {
    let mut d = Dispatcher::new();
    assert_eq!(d.register_rpc(60, 21), Ok(()));
    assert_eq!(d.register_rpc(60, 21), Err(AmqpError::RpcInFlight));
    assert_eq!(d.register_rpc(50, 11), Ok(()));
}

#[test]
fn close_ok_wakes_closer_and_stops() {
    let mut d = Dispatcher::new();
    d.register_rpc(20, 41).unwrap();
    assert_eq!(
        d.handle(Inbound::CloseChannelOk),
        vec![Action::Reply { class_id: 20, method_id: 41, args: vec![] }, Action::Exit]
    );
    assert!(d.handle(Inbound::GetEmpty).is_empty());
}

#[test]
fn unregistered_consumer_buffers_again() {
    let mut d = Dispatcher::new();
    d.register_consumer("a".to_string());
    assert_eq!(d.unregister_consumer(&"a".to_string()), Some(vec![]));
    assert_eq!(d.unregister_consumer(&"none".to_string()), None);
    assert!(deliver(&mut d, "a", 1, b"x").is_empty());
    assert_eq!(d.register_consumer("a".to_string()), vec![msg("a", 1, b"x")]);
}

#[test]
fn empty_body_completes_at_header() {
    let mut d = Dispatcher::new();
    d.register_consumer("z".to_string());
    d.handle(Inbound::Deliver { consumer_tag: "z".to_string(), delivery_tag: 4 });
    let acts = d.handle(Inbound::ContentHeader { body_size: 0, properties: vec![] });
    assert_eq!(acts, vec![Action::Deliver(msg("z", 4, b""))]);
}

use amqprs::dispatcher::inbound_of;
use amqprs::frame::{content_header, Frame, FRAME_BODY, FRAME_HEADER, FRAME_METHOD};

#[test]
fn frames_become_dispatcher_events() {
    let mut deliver = vec![0, 60, 0, 60, 2, b'T', b'1'];
    deliver.extend_from_slice(&7u64.to_be_bytes());
    deliver.extend_from_slice(&[0, 1, b'x', 1, b'q']);
    let f = Frame::new(FRAME_METHOD, 1, deliver).unwrap();
    assert_eq!(
        inbound_of(&f),
        Ok(Inbound::Deliver { consumer_tag: "T1".to_string(), delivery_tag: 7 })
    );

    let mut close = vec![0, 20, 0, 40, 0x01, 0x94, 9];
    close.extend_from_slice(b"NOT_FOUND");
    close.extend_from_slice(&[0, 50, 0, 10]);
    let f = Frame::new(FRAME_METHOD, 1, close).unwrap();
    assert_eq!(
        inbound_of(&f),
        Ok(Inbound::CloseChannel { code: 404, text: "NOT_FOUND".to_string() })
    );

    let f = Frame::new(FRAME_METHOD, 1, vec![0, 50, 0, 11, 1, b'q', 0, 0, 0, 0, 0, 0, 0, 0]).unwrap();
    assert_eq!(
        inbound_of(&f),
        Ok(Inbound::Reply { class_id: 50, method_id: 11, args: vec![1, b'q', 0, 0, 0, 0, 0, 0, 0, 0] })
    );

    let f = Frame::new(FRAME_METHOD, 1, vec![0, 20, 0, 41]).unwrap();
    assert_eq!(inbound_of(&f), Ok(Inbound::CloseChannelOk));

    let f = Frame::new(FRAME_HEADER, 1, content_header(60, 100, 0)).unwrap();
    assert_eq!(inbound_of(&f), Ok(Inbound::ContentHeader { body_size: 100, properties: vec![0, 0] }));

    let f = Frame::new(FRAME_BODY, 1, vec![0xc5; 3]).unwrap();
    assert_eq!(inbound_of(&f), Ok(Inbound::ContentBody(vec![0xc5; 3])));

    let f = Frame::new(FRAME_METHOD, 1, vec![0, 60, 0, 60, 5, b'a']).unwrap();
    assert_eq!(inbound_of(&f), Err(AmqpError::MalformedFrame));
    let f = Frame::heartbeat();
    assert_eq!(inbound_of(&f), Err(AmqpError::MalformedFrame));
}

#[test]
fn body_longer_than_announced_is_malformed() {
    let mut d = Dispatcher::new();
    d.register_consumer("c".to_string());
    d.handle(Inbound::Deliver { consumer_tag: "c".to_string(), delivery_tag: 1 });
    d.handle(Inbound::ContentHeader { body_size: 2, properties: vec![] });
    assert_eq!(d.handle(Inbound::ContentBody(vec![1, 2, 3])), vec![Action::Malformed]);
    // nothing is awaited any more
    assert!(d.handle(Inbound::ContentBody(vec![1])).is_empty());
}

#[test]
fn held_messages_come_back_on_unregister() {
    let mut d = Dispatcher::new();
    deliver(&mut d, "h", 1, b"one");
    assert_eq!(d.unregister_consumer(&"h".to_string()), Some(vec![msg("h", 1, b"one")]));
}

#[test]
fn get_empty_awaits_no_content() {
    let mut d = Dispatcher::new();
    assert_eq!(d.handle(Inbound::GetEmpty), vec![Action::GetEmpty]);
    assert!(d.handle(Inbound::ContentHeader { body_size: 0, properties: vec![] }).is_empty());
    assert!(d.handle(Inbound::ContentBody(vec![1])).is_empty());
}

#[test]
fn lost_connection_fails_every_waiter() {
    let mut d = Dispatcher::new();
    d.register_rpc(50, 11).unwrap();
    d.register_rpc(60, 11).unwrap();
    let acts = d.connection_lost(0, "heartbeat".to_string());
    assert_eq!(
        acts,
        vec![
            Action::FailWaiters {
                waiters: vec![(50, 11), (60, 11)],
                error: AmqpError::ConnectionClosed { code: 0, text: "heartbeat".to_string() },
            },
            Action::Exit,
        ]
    );
    assert!(d.handle(Inbound::GetEmpty).is_empty());
    assert!(d.connection_lost(0, String::new()).is_empty());
}

#[test]
fn reply_keeps_other_waiters() {
    let mut d = Dispatcher::new();
    d.register_rpc(50, 11).unwrap();
    d.register_rpc(60, 21).unwrap();
    d.handle(Inbound::Reply { class_id: 50, method_id: 11, args: vec![] });
    assert_eq!(d.register_rpc(60, 21), Err(AmqpError::RpcInFlight));
    assert_eq!(d.register_rpc(50, 11), Ok(()));
}
