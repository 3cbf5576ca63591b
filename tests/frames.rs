use amqprs::connection::{heartbeat_due, heartbeat_lost, ChannelIds};
use amqprs::error::AmqpError;
use amqprs::frame::{
    content_header, header_body_size, method_id, negotiate, protocol_header, read_frame,
    reassemble, split_body, Frame, Tune, FRAME_BODY, FRAME_HEADER, FRAME_METHOD,
};

fn wire(f: &Frame) -> Vec<u8> {
    let mut out = Vec::new();
    f.encode(&mut out);
    out
}

#[test]
fn every_frame_kind_round_trips() {
    let frames = vec![
        Frame::new(FRAME_METHOD, 1, vec![0, 50, 0, 10, 1, 2]).unwrap(),
        Frame::new(FRAME_HEADER, 1, content_header(60, 5, 0)).unwrap(),
        Frame::new(FRAME_BODY, 7, vec![0xc5; 5]).unwrap(),
        Frame::heartbeat(),
    ];
    for f in frames {
        let mut bytes = wire(&f);
        let n = bytes.len();
        assert_eq!(u32::from_be_bytes([bytes[3], bytes[4], bytes[5], bytes[6]]) as usize, f.payload().len());
        assert_eq!(bytes[n - 1], 0xce);
        bytes.extend_from_slice(&[1, 2, 3]);
        let (back, used) = read_frame(&bytes).unwrap().unwrap();
        assert_eq!(used, n);
        assert_eq!(back, f);
    }
}

#[test]
fn heartbeat_wire_form() {
    assert_eq!(wire(&Frame::heartbeat()), vec![8, 0, 0, 0, 0, 0, 0, 0xce]);
}

#[test]
fn partial_frame_needs_more_bytes() {
    let bytes = wire(&Frame::new(FRAME_BODY, 1, vec![1, 2, 3]).unwrap());
    for cut in 0..bytes.len() {
        assert_eq!(read_frame(&bytes[..cut]), Ok(None));
    }
}

#[test]
fn missing_end_marker_is_malformed() {
    let mut bytes = wire(&Frame::new(FRAME_BODY, 1, vec![1, 2, 3]).unwrap());
    let n = bytes.len();
    bytes[n - 1] = 0;
    assert_eq!(read_frame(&bytes), Err(AmqpError::MalformedFrame));
    assert_eq!(read_frame(&[9, 0, 0, 0, 0, 0, 0, 0xce]), Err(AmqpError::MalformedFrame));
    assert_eq!(Frame::new(5, 0, vec![]), Err(AmqpError::MalformedFrame));
}

#[test]
fn writer_refuses_oversized_body_frame() {
    let f = Frame::new(FRAME_BODY, 1, vec![0; 4089]).unwrap();
    let mut out = Vec::new();
    assert_eq!(f.write(4096, &mut out), Err(AmqpError::FrameTooLarge));
    assert!(out.is_empty());
    let f = Frame::new(FRAME_BODY, 1, vec![0; 4088]).unwrap();
    assert_eq!(f.write(4096, &mut out), Ok(()));
    assert_eq!(out.len(), 4096);
}

#[test]
fn large_body_splits_into_frame_max_pieces() {
    let body: Vec<u8> = (0..10000u32).map(|i| (i % 251) as u8).collect();
    let pieces = split_body(&body, 4096);
    let sizes: Vec<usize> = pieces.iter().map(|p| p.len()).collect();
    assert_eq!(sizes, vec![4088, 4088, 1824]);
    assert_eq!(reassemble(&pieces), body);

    let header = Frame::new(FRAME_HEADER, 1, content_header(60, body.len() as u64, 0)).unwrap();
    assert_eq!(header_body_size(header.payload()), Some(10000));
    let mut out = Vec::new();
    for p in pieces {
        let f = Frame::new(FRAME_BODY, 1, p).unwrap();
        f.write(4096, &mut out).unwrap();
    }
    let mut at = 0;
    let mut got = Vec::new();
    while let Some((f, used)) = read_frame(&out[at..]).unwrap() {
        got.extend_from_slice(f.payload());
        at += used;
    }
    assert_eq!(got, body);
}

#[test]
fn split_at_exact_boundaries() {
    let body = vec![0xabu8; 8176];
    let pieces = split_body(&body, 4096);
    assert_eq!(pieces.len(), 2);
    assert_eq!(reassemble(&pieces), body);
    assert!(split_body(&[], 4096).is_empty());
}

#[test]
fn handshake_header_and_tuning() {
    assert_eq!(protocol_header(), vec![0x41, 0x4d, 0x51, 0x50, 0x00, 0x00, 0x09, 0x01]);
    let broker = Tune { channel_max: 2047, frame_max: 131072, heartbeat: 60 };
    let client = Tune { channel_max: u16::MAX, frame_max: u32::MAX, heartbeat: u16::MAX };
    assert_eq!(negotiate(broker, client), broker);
    let small = Tune { channel_max: 10, frame_max: 4096, heartbeat: 5 };
    assert_eq!(negotiate(broker, small), small);
}

#[test]
fn method_ids() {
    assert_eq!(method_id(&[0, 50, 0, 11, 9]), Some((50, 11)));
    assert_eq!(method_id(&[0, 50, 0]), None);
}

#[test]
fn heartbeat_loss_after_two_intervals() {
    assert!(heartbeat_lost(3000, 1));
    assert!(!heartbeat_lost(1999, 1));
    assert!(heartbeat_lost(2000, 1));
    assert!(!heartbeat_lost(1_000_000, 0));
    assert!(heartbeat_due(500, 1));
    assert!(!heartbeat_due(499, 1));
}

#[test]
fn channel_ids_lowest_free_first() {
    let mut ids = ChannelIds::new(3);
    assert_eq!(ids.allocate(), Ok(1));
    assert_eq!(ids.allocate(), Ok(2));
    assert_eq!(ids.allocate(), Ok(3));
    assert_eq!(ids.allocate(), Err(AmqpError::NoFreeChannel));
    ids.release(2);
    assert_eq!(ids.allocate(), Ok(2));
}

use amqprs::connection::{open_payload, parse_tune, start_ok_payload, tune_ok_payload, Handshake, HandshakeStep};
use amqprs::types::{FieldTable, FieldValue, LongStr, ShortStr};

fn short(s: &str) -> ShortStr {
    ShortStr::try_from(s.to_string()).unwrap()
}

#[test]
fn handshake_transcript() {
    assert_eq!(protocol_header(), vec![0x41, 0x4d, 0x51, 0x50, 0x00, 0x00, 0x09, 0x01]);
    let props = FieldTable::new()
        .insert(short("product"), FieldValue::S(LongStr::try_from("amqprs".to_string()).unwrap()))
        .unwrap();
    let response = LongStr::try_from("\0user\0bitnami".to_string()).unwrap();
    let start_ok = start_ok_payload(&props, &short("PLAIN"), &response, &short("en_US"));
    assert_eq!(&start_ok[0..4], &[0, 10, 0, 11]);
    let mut tail = vec![5];
    tail.extend_from_slice(b"PLAIN");
    tail.extend_from_slice(&[0, 0, 0, 13]);
    tail.extend_from_slice(b"\0user\0bitnami");
    tail.push(5);
    tail.extend_from_slice(b"en_US");
    assert!(start_ok.ends_with(&tail));
    let open = open_payload(&short("/"));
    assert_eq!(open, vec![0, 10, 0, 40, 1, b'/', 0, 0]);

    let configured = Tune { channel_max: u16::MAX, frame_max: u32::MAX, heartbeat: u16::MAX };
    let mut hs = Handshake::new(configured);
    let out = hs.on_method(10, 10, &[], &start_ok, &open).unwrap();
    assert_eq!(out, vec![start_ok.clone()]);
    let mut tune = Vec::new();
    tune.extend_from_slice(&2047u16.to_be_bytes());
    tune.extend_from_slice(&131072u32.to_be_bytes());
    tune.extend_from_slice(&60u16.to_be_bytes());
    assert_eq!(parse_tune(&tune), Some(Tune { channel_max: 2047, frame_max: 131072, heartbeat: 60 }));
    let out = hs.on_method(10, 30, &tune, &start_ok, &open).unwrap();
    let agreed = Tune { channel_max: 2047, frame_max: 131072, heartbeat: 60 };
    assert_eq!(hs.agreed, agreed);
    let mut tune_ok = vec![0, 10, 0, 31];
    tune_ok.extend_from_slice(&tune);
    assert_eq!(out, vec![tune_ok.clone(), open.clone()]);
    assert_eq!(tune_ok_payload(agreed), tune_ok);
    assert_eq!(hs.on_method(10, 41, &[], &start_ok, &open), Ok(vec![]));
    assert_eq!(hs.step, HandshakeStep::Open);
}

#[test]
fn handshake_out_of_turn_fails() {
    let configured = Tune { channel_max: 10, frame_max: 4096, heartbeat: 1 };
    let mut hs = Handshake::new(configured);
    assert_eq!(hs.on_method(10, 30, &[0; 8], &vec![], &vec![]), Err(AmqpError::HandshakeFailed));
    assert_eq!(hs.step, HandshakeStep::AwaitStart);
    hs.on_method(10, 10, &[], &vec![], &vec![]).unwrap();
    assert_eq!(hs.on_method(10, 30, &[0; 7], &vec![], &vec![]), Err(AmqpError::HandshakeFailed));
}
