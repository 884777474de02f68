//! Multiplexer receive side: fragment reassembly, ordered release, and the
//! close-then-stale-data race.

use veloren_network::frame::Frame;
use veloren_network::multiplex::{
    classify_integrity, fragment_message, IntegrityOutcome, Message, Multiplexer,
};
use veloren_network::promises::{Promises, CONSISTENCY, GUARANTEED_DELIVERY, ORDERED};
use veloren_network::types::Sid;

fn unordered() -> Promises {
    Promises::empty()
}

fn ordered() -> Promises {
    Promises::from_bits_truncate(ORDERED)
}

fn payload_of(n: usize) -> Vec<u8> {
    (0..n).map(|i| (i * 31 % 251) as u8).collect()
}

fn deliver(
    mux: &mut Multiplexer,
    sid: u64,
    mid: u64,
    payload: &[u8],
    frags: &[(u64, usize)],
) -> Vec<Message> {
    mux.handle_data_header(mid, sid, payload.len() as u64).unwrap();
    let mut out = Vec::new();
    for &(start, len) in frags {
        let chunk: Vec<u8> = payload[start as usize..start as usize + len].to_vec();
        out.extend(mux.handle_data(mid, start, &chunk).unwrap());
    }
    out
}

#[test]
fn reassembly_order_independent() {
    let payload = payload_of(100);
    let forward = [(0u64, 40usize), (40, 40), (80, 20)];
    let backward = [(80u64, 20usize), (40, 40), (0, 40)];

    let mut mux1 = Multiplexer::new();
    mux1.open_stream(1, 0, unordered()).unwrap();
    let got1 = deliver(&mut mux1, 1, 10, &payload, &forward);

    let mut mux2 = Multiplexer::new();
    mux2.open_stream(1, 0, unordered()).unwrap();
    let got2 = deliver(&mut mux2, 1, 10, &payload, &backward);

    assert_eq!(got1.len(), 1);
    assert_eq!(got2.len(), 1);
    assert_eq!(got1[0].payload, payload);
    assert_eq!(got2[0].payload, payload);
}

#[test]
fn ordered_release_sorts_completions() {
    // messages 1, 2, 3 submitted; reassembly completes in order 3, 1, 2;
    // the application still sees 1, 2, 3
    let mut mux = Multiplexer::new();
    mux.open_stream(1, 0, ordered()).unwrap();
    let p1 = vec![1u8; 8];
    let p2 = vec![2u8; 8];
    let p3 = vec![3u8; 8];
    mux.handle_data_header(1, 1, 8).unwrap();
    mux.handle_data_header(2, 1, 8).unwrap();
    mux.handle_data_header(3, 1, 8).unwrap();

    let out3 = mux.handle_data(3, 0, &p3).unwrap();
    assert!(out3.is_empty(), "3 must wait for 1 and 2");
    let out1 = mux.handle_data(1, 0, &p1).unwrap();
    assert_eq!(out1.len(), 1);
    assert_eq!(out1[0].mid, 1);
    assert_eq!(out1[0].payload, p1);
    let out2 = mux.handle_data(2, 0, &p2).unwrap();
    assert_eq!(out2.len(), 2, "2 releases itself and the waiting 3");
    assert_eq!(out2[0].mid, 2);
    assert_eq!(out2[0].payload, p2);
    assert_eq!(out2[1].mid, 3);
    assert_eq!(out2[1].payload, p3);
}

#[test]
fn large_message_four_fragments_delivered_once() {
    // ORDERED | GUARANTEED_DELIVERY stream; a 10 000-byte message in
    // fragments of 4096/4096/1808/0 at offsets 0/4096/8192/10000
    let mut mux = Multiplexer::new();
    let promises = Promises::from_bits_truncate(ORDERED | GUARANTEED_DELIVERY);
    mux.open_stream(7, 1, promises).unwrap();
    let payload = payload_of(10_000);
    let frags = [(0u64, 4096usize), (4096, 4096), (8192, 1808), (10_000, 0)];
    let got = deliver(&mut mux, 7, 1, &payload, &frags);
    assert_eq!(got.len(), 1, "exactly one message delivered, exactly once");
    assert_eq!(got[0].mid, 1);
    assert_eq!(got[0].sid, 7);
    assert_eq!(got[0].payload.len(), 10_000);
    assert_eq!(got[0].payload, payload);
    // nothing more comes out afterwards
    let again = mux.handle_data(1, 0, &Vec::new()).unwrap();
    assert!(again.is_empty());
}

#[test]
fn stale_data_after_close_is_dropped_silently() {
    let mut mux = Multiplexer::new();
    mux.open_stream(4, 0, unordered()).unwrap();
    mux.handle_data_header(11, 4, 100).unwrap();
    mux.close_stream(4).unwrap();
    // the fragment raced against CloseStream: silently dropped, no error
    let out = mux.handle_data(11, 0, &vec![0u8; 10]).unwrap();
    assert!(out.is_empty());
}

#[test]
fn fragment_beyond_declared_length_is_violation() {
    let mut mux = Multiplexer::new();
    mux.open_stream(1, 0, unordered()).unwrap();
    mux.handle_data_header(1, 1, 4).unwrap();
    assert!(mux.handle_data(1, 2, &vec![0u8; 3]).is_err());
    // the valid bytes still assemble afterwards: state was not corrupted
    let out = mux.handle_data(1, 0, &vec![9, 9, 9, 9]).unwrap();
    assert_eq!(out.len(), 1);
    assert_eq!(out[0].payload, vec![9, 9, 9, 9]);
}

#[test]
fn header_for_unknown_stream_is_violation() {
    let mut mux = Multiplexer::new();
    assert!(mux.handle_data_header(1, 99, 4).is_err());
}

#[test]
fn consistency_marks_messages_for_verification() {
    let mut mux = Multiplexer::new();
    mux.open_stream(1, 0, Promises::from_bits_truncate(CONSISTENCY)).unwrap();
    mux.handle_data_header(1, 1, 2).unwrap();
    let out = mux.handle_data(1, 0, &vec![1, 2]).unwrap();
    assert_eq!(out.len(), 1);
    assert!(out[0].needs_verify);

    assert_eq!(
        classify_integrity(Promises::from_bits_truncate(CONSISTENCY), true),
        IntegrityOutcome::Deliver
    );
    assert_eq!(
        classify_integrity(Promises::from_bits_truncate(CONSISTENCY), false),
        IntegrityOutcome::Discard { retry_needed: false }
    );
    assert_eq!(
        classify_integrity(
            Promises::from_bits_truncate(CONSISTENCY | GUARANTEED_DELIVERY),
            false
        ),
        IntegrityOutcome::Discard { retry_needed: true }
    );
}

#[test]
fn fragmentation_partitions_payload() {
    let payload = payload_of(10);
    let frames = fragment_message(5, Sid::new(3), &payload, 4);
    assert_eq!(frames.len(), 4);
    assert!(frames[0] == Frame::DataHeader { mid: 5, sid: Sid::new(3), length: 10 });
    let expect = [(0u64, &payload[0..4]), (4, &payload[4..8]), (8, &payload[8..10])];
    for (i, (start, bytes)) in expect.iter().enumerate() {
        assert!(
            frames[i + 1]
                == Frame::Data { mid: 5, start: *start, data: bytes.to_vec() }
        );
    }

    // a zero-length message still travels: header plus one empty fragment
    let frames = fragment_message(6, Sid::new(3), &Vec::new(), 4);
    assert_eq!(frames.len(), 2);
    assert!(frames[1] == Frame::Data { mid: 6, start: 0, data: Vec::new() });
}

#[test]
fn fragments_roundtrip_through_multiplexer() {
    let payload = payload_of(1000);
    let frames = fragment_message(1, Sid::new(2), &payload, 128);
    let mut mux = Multiplexer::new();
    mux.open_stream(2, 0, ordered()).unwrap();
    let mut out = Vec::new();
    for frame in frames {
        match frame {
            Frame::DataHeader { mid, sid, length } => {
                mux.handle_data_header(mid, sid.value(), length).unwrap();
            },
            Frame::Data { mid, start, data } => {
                out.extend(mux.handle_data(mid, start, &data).unwrap());
            },
            _ => unreachable!(),
        }
    }
    assert_eq!(out.len(), 1);
    assert_eq!(out[0].payload, payload);
}
