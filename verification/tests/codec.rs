//! Frame codec: round trips, exact wire bytes, and decode errors.

use veloren_network::error::DecodeError;
use veloren_network::frame::Frame;
use veloren_network::promises::{Promises, CONSISTENCY, ORDERED};
use veloren_network::types::{Pid, Sid};

fn roundtrip(frame: Frame) {
    let kind = frame.get_int();
    let body = frame.encode();
    let back = Frame::decode(kind, &body).expect("well-formed frame must decode");
    assert!(back == frame);
}

#[test]
fn roundtrip_handshake() {
    roundtrip(Frame::Handshake {
        magic_number: [86, 69, 76, 79, 82, 69, 78],
        version: [0, 5, 0],
    });
    roundtrip(Frame::Handshake {
        magic_number: [0, 1, 2, 3, 4, 5, 6],
        version: [u32::MAX, 0, u32::MAX],
    });
}

#[test]
fn roundtrip_init() {
    let pid = Pid::fake(3);
    roundtrip(Frame::Init { pid, secret: 0 });
    roundtrip(Frame::Init { pid, secret: u128::MAX });
}

#[test]
fn roundtrip_shutdown() {
    roundtrip(Frame::Shutdown);
}

#[test]
fn roundtrip_open_stream() {
    roundtrip(Frame::OpenStream {
        sid: Sid::new(0),
        prio: 0,
        promises: Promises::empty(),
    });
    roundtrip(Frame::OpenStream {
        sid: Sid::new(u64::MAX),
        prio: 255,
        promises: Promises::from_bits_truncate(0xff),
    });
}

#[test]
fn roundtrip_close_stream() {
    roundtrip(Frame::CloseStream { sid: Sid::new(42) });
    roundtrip(Frame::CloseStream { sid: Sid::new(u64::MAX) });
}

#[test]
fn roundtrip_data_header() {
    roundtrip(Frame::DataHeader {
        mid: 7,
        sid: Sid::new(9),
        length: 10_000,
    });
    roundtrip(Frame::DataHeader {
        mid: u64::MAX,
        sid: Sid::new(0),
        length: u64::MAX,
    });
}

#[test]
fn roundtrip_data() {
    // boundary values: zero-length payload and maximum offset
    roundtrip(Frame::Data {
        mid: 1,
        start: u64::MAX,
        data: Vec::new(),
    });
    roundtrip(Frame::Data {
        mid: 2,
        start: 0,
        data: vec![0xde, 0xad, 0xbe, 0xef],
    });
}

#[test]
fn roundtrip_raw() {
    roundtrip(Frame::Raw(Vec::new()));
    roundtrip(Frame::Raw(b"debug escape hatch".to_vec()));
}

#[test]
fn open_stream_exact_bytes() {
    let frame = Frame::OpenStream {
        sid: Sid::new(0x0102_0304_0506_0708),
        prio: 0x2a,
        promises: Promises::from_bits_truncate(ORDERED | CONSISTENCY),
    };
    // little-endian stream id, then priority byte, then promise byte
    assert_eq!(
        frame.encode(),
        vec![0x08, 0x07, 0x06, 0x05, 0x04, 0x03, 0x02, 0x01, 0x2a, 0b11]
    );
}

#[test]
fn data_header_exact_bytes() {
    let frame = Frame::DataHeader {
        mid: 1,
        sid: Sid::new(2),
        length: 0x0100,
    };
    assert_eq!(
        frame.encode(),
        vec![1, 0, 0, 0, 0, 0, 0, 0, 2, 0, 0, 0, 0, 0, 0, 0, 0, 1, 0, 0, 0, 0, 0, 0]
    );
}

#[test]
fn decode_wrong_length() {
    assert_eq!(Frame::decode(0, &vec![0; 18]), Err(DecodeError::WrongLength));
    assert_eq!(Frame::decode(1, &vec![0; 33]), Err(DecodeError::WrongLength));
    assert_eq!(Frame::decode(2, &vec![0]), Err(DecodeError::WrongLength));
    assert_eq!(Frame::decode(3, &vec![0; 9]), Err(DecodeError::WrongLength));
    assert_eq!(Frame::decode(4, &vec![0; 7]), Err(DecodeError::WrongLength));
    assert_eq!(Frame::decode(5, &vec![0; 25]), Err(DecodeError::WrongLength));
    assert_eq!(Frame::decode(6, &vec![0; 15]), Err(DecodeError::WrongLength));
    assert_eq!(Frame::decode(7, &vec![0; 1]), Err(DecodeError::WrongLength));
}

#[test]
fn decode_unknown_kind() {
    assert_eq!(Frame::decode(8, &Vec::new()), Err(DecodeError::UnknownKind));
    assert_eq!(Frame::decode(255, &vec![1, 2, 3]), Err(DecodeError::UnknownKind));
}

#[test]
fn decode_raw_length_mismatch() {
    // declared length 5, but only 2 payload bytes present
    assert_eq!(
        Frame::decode(7, &vec![5, 0, 0xaa, 0xbb]),
        Err(DecodeError::LengthMismatch)
    );
}

#[test]
fn decode_truncates_unknown_promise_bits() {
    let mut body = vec![0u8; 10];
    body[9] = 0xff;
    match Frame::decode(3, &body).unwrap() {
        Frame::OpenStream { promises, .. } => assert_eq!(promises.bits(), 0b0001_1111),
        _ => panic!("expected OpenStream"),
    }
}

#[test]
fn gen_functions_read_little_endian() {
    let frame = Frame::gen_data_header([
        1, 0, 0, 0, 0, 0, 0, 0, 2, 0, 0, 0, 0, 0, 0, 0, 3, 0, 0, 0, 0, 0, 0, 0,
    ]);
    assert!(frame == Frame::DataHeader { mid: 1, sid: Sid::new(2), length: 3 });

    let (mid, start, length) = Frame::gen_data([
        9, 0, 0, 0, 0, 0, 0, 0, 0, 16, 0, 0, 0, 0, 0, 0, 0x34, 0x12,
    ]);
    assert_eq!(mid, 9);
    assert_eq!(start, 4096);
    assert_eq!(length, 0x1234);

    assert_eq!(Frame::gen_raw([0xcd, 0xab]), 0xabcd);
}

#[test]
fn frame_int2str() {
    assert_eq!(Frame::int_to_string(3), "OpenStream");
    assert_eq!(Frame::int_to_string(7), "Raw");
    assert_eq!(Frame::int_to_string(8), "");
}

#[test]
fn frame_get_int() {
    assert_eq!(Frame::get_int(&Frame::Raw(b"Foo".to_vec())), 7);
    assert_eq!(Frame::get_int(&Frame::Shutdown), 2);
}
