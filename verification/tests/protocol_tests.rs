use lessons::framing::{frame_message, FrameBuffer, ReadStep, BUFFER_SIZE};
use lessons::messages::{reply_to, ClientToServerMsg, ServerToClientMsg};
use lessons::polling::{on_read, poll_timeout, until_timeout, ReadEvent, TIMEOUT_NANOS};
use lessons::scheduling::{next_slot, Gather, GatherNext};

#[test]
fn playground_ping_gets_pong() {
    assert_eq!(reply_to(ClientToServerMsg::Ping), ServerToClientMsg::Pong);
}

#[test]
fn frame_appends_newline() {
    assert_eq!(frame_message(b"\"Pong\""), b"\"Pong\"\n".to_vec());
    assert_eq!(frame_message(b""), b"\n".to_vec());
}

#[test]
fn fresh_buffer_has_full_space() {
    let b = FrameBuffer::new();
    assert_eq!(b.free_space(), BUFFER_SIZE);
    assert_eq!(b.loaded(), 0);
    assert_eq!(b.find_newline(), None);
}

#[test]
fn empty_read_means_closed() {
    let mut b = FrameBuffer::new();
    assert!(matches!(b.after_read(&[]), ReadStep::Closed));
    assert_eq!(b.loaded(), 0);
}

#[test]
fn frame_round_trip() {
    let mut b = FrameBuffer::new();
    let wire = frame_message(b"\"Ping\"");
    match b.after_read(&wire) {
        ReadStep::Frame { end, payload } => {
            assert_eq!(end, 6);
            assert_eq!(payload, b"\"Ping\"".to_vec());
            b.consume(end);
        }
        _ => panic!("no frame"),
    }
    assert_eq!(b.loaded(), 0);
}

#[test]
fn partial_message_needs_more() {
    let mut b = FrameBuffer::new();
    assert!(matches!(b.after_read(b"\"Pi"), ReadStep::NeedMore));
    assert_eq!(b.loaded(), 3);
    match b.after_read(b"ng\"\n") {
        ReadStep::Frame { end, payload } => {
            assert_eq!(end, 6);
            assert_eq!(payload, b"\"Ping\"".to_vec());
        }
        _ => panic!(),
    }
}

#[test]
fn consume_keeps_the_bytes_after_the_newline() {
    let mut b = FrameBuffer::new();
    match b.after_read(b"ab\ncd") {
        ReadStep::Frame { end, payload } => {
            assert_eq!(payload, b"ab".to_vec());
            b.consume(end);
        }
        _ => panic!(),
    }
    assert_eq!(b.loaded(), 2);
    assert_eq!(b.payload(2), b"cd".to_vec());
}

#[test]
fn stale_newline_after_a_long_message_is_still_found() {
    // A message that fills the buffer leaves its newline behind at the end of the buffer
    // after it is consumed; the next search finds that stale newline.
    let mut b = FrameBuffer::new();
    let mut long = vec![b'x'; BUFFER_SIZE - 1];
    long.push(b'\n');
    match b.after_read(&long) {
        ReadStep::Frame { end, .. } => {
            assert_eq!(end, BUFFER_SIZE - 1);
            b.consume(end);
        }
        _ => panic!(),
    }
    assert_eq!(b.loaded(), 0);
    assert_eq!(b.find_newline(), Some(BUFFER_SIZE - 1));
}

#[test]
fn round_robin_visits_workers_in_order() {
    let mut slot = 0usize;
    let mut seen = vec![];
    for _ in 0..7 {
        seen.push(slot);
        slot = next_slot(slot, 3);
    }
    assert_eq!(seen, vec![0, 1, 2, 0, 1, 2, 0]);
    assert_eq!(next_slot(0, 1), 0);
}

#[test]
fn gather_collects_lines_in_order() {
    let mut g: Gather<&str> = Gather::new(3);
    assert!(matches!(g.next(), GatherNext::AwaitItem));
    g.item_arrived();
    let answers = ["zero", "one", "two"];
    for expected in 0..3 {
        match g.next() {
            GatherNext::Receive(line) => {
                assert_eq!(line, expected);
                g.record(answers[line]);
            }
            _ => panic!("expected to receive from line {}", expected),
        }
    }
    match g.next() {
        GatherNext::Join(results) => assert_eq!(results, vec!["zero", "one", "two"]),
        _ => panic!("expected a join"),
    }
    assert!(matches!(g.next(), GatherNext::AwaitItem));
    g.item_arrived();
    assert!(matches!(g.next(), GatherNext::Receive(0)));
}

#[test]
fn gather_without_lines_joins_once_per_item() {
    let mut g: Gather<u8> = Gather::new(0);
    assert!(matches!(g.next(), GatherNext::AwaitItem));
    assert!(matches!(g.next(), GatherNext::AwaitItem));
    for _item in 0..2 {
        g.item_arrived();
        match g.next() {
            GatherNext::Join(results) => assert!(results.is_empty()),
            _ => panic!("expected a join"),
        }
        assert!(matches!(g.next(), GatherNext::AwaitItem));
    }
}

#[test]
fn timeout_counts_down_and_stops_at_zero() {
    assert_eq!(until_timeout(0), TIMEOUT_NANOS);
    assert_eq!(until_timeout(1_000_000_000), 2_000_000_000);
    assert_eq!(until_timeout(TIMEOUT_NANOS), 0);
    assert_eq!(until_timeout(u64::MAX), 0);
}

#[test]
fn poll_timeout_is_least_remaining_millis_or_unlimited() {
    assert_eq!(poll_timeout(&[]), -1);
    assert_eq!(poll_timeout(&[2_500_000_000, 1_234_567_890, 3_000_000_000]), 1234);
    assert_eq!(poll_timeout(&[999_999]), 0);
}

#[test]
fn read_outcomes() {
    let a = on_read(ReadEvent::Message(7u8));
    assert_eq!(a.message, Some(7));
    assert!(a.connected && a.active);
    let b = on_read::<u8>(ReadEvent::WouldBlock);
    assert!(b.message.is_none() && b.connected && !b.active);
    let c = on_read::<u8>(ReadEvent::Failed);
    assert!(c.message.is_none() && !c.connected);
    let d = on_read::<u8>(ReadEvent::Closed);
    assert!(d.message.is_none() && !d.connected);
}
