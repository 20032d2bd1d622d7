//! Frame codec and outbound channel behaviour.

use webtick::channel::OutboundChannel;
use webtick::codec::decode;
use webtick::codec::encode;
use webtick::codec::AppMessage;
use webtick::codec::DecodeError;

#[test]
fn round_trip_ping() {
    let m = AppMessage::Ping(100);
    assert_eq!(decode(&encode(&m)), Ok(m));
}

#[test]
fn round_trip_pong() {
    let m = AppMessage::Pong(u64::MAX);
    assert_eq!(decode(&encode(&m)), Ok(m));
}

#[test]
fn round_trip_data() {
    let m = AppMessage::Data(vec![0, 1, 2, 255]);
    assert_eq!(decode(&encode(&m)), Ok(m));
}

#[test]
fn round_trip_empty_data() {
    let m = AppMessage::Data(Vec::new());
    assert_eq!(decode(&encode(&m)), Ok(m));
}

#[test]
fn ping_wire_format_is_tag_then_little_endian() {
    assert_eq!(encode(&AppMessage::Ping(100)), vec![1, 100, 0, 0, 0, 0, 0, 0, 0]);
    assert_eq!(encode(&AppMessage::Pong(0x0102030405060708)), vec![
        2, 8, 7, 6, 5, 4, 3, 2, 1
    ]);
    assert_eq!(encode(&AppMessage::Data(vec![7, 8])), vec![3, 7, 8]);
}

#[test]
fn decode_rejects_empty_frame() {
    assert_eq!(decode(&Vec::new()), Err(DecodeError::EmptyFrame));
}

#[test]
fn decode_rejects_unknown_tag() {
    assert_eq!(decode(&vec![9, 1, 2]), Err(DecodeError::UnknownTag));
}

#[test]
fn decode_rejects_short_ping() {
    assert_eq!(decode(&vec![1, 100]), Err(DecodeError::WrongLength));
    assert_eq!(decode(&vec![2, 1, 2, 3, 4, 5, 6, 7, 8, 9]), Err(DecodeError::WrongLength));
}

#[test]
fn channel_is_fifo() {
    let mut ch = OutboundChannel::new(8);
    assert!(ch.push(AppMessage::Ping(1)));
    assert!(ch.push(AppMessage::Ping(2)));
    assert!(ch.push(AppMessage::Ping(3)));
    assert_eq!(ch.pop(), Some(AppMessage::Ping(1)));
    assert_eq!(ch.pop(), Some(AppMessage::Ping(2)));
    assert_eq!(ch.pop(), Some(AppMessage::Ping(3)));
    assert_eq!(ch.pop(), None);
}

#[test]
fn full_channel_drops_newest() {
    let mut ch = OutboundChannel::new(2);
    assert!(ch.push(AppMessage::Ping(1)));
    assert!(ch.push(AppMessage::Ping(2)));
    assert!(!ch.push(AppMessage::Ping(3)));
    assert_eq!(ch.len(), 2);
    assert_eq!(ch.pop(), Some(AppMessage::Ping(1)));
    assert_eq!(ch.pop(), Some(AppMessage::Ping(2)));
    assert_eq!(ch.pop(), None);
}

#[test]
fn clear_discards_queue() {
    let mut ch = OutboundChannel::new(4);
    assert!(ch.push(AppMessage::Ping(1)));
    ch.clear();
    assert_eq!(ch.len(), 0);
    assert_eq!(ch.pop(), None);
}
