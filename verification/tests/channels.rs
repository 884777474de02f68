//! Channel lifecycle: handshake acceptance and rejection, authentication,
//! frame routing, shutdown, and transport failure.

use veloren_network::channel::{Channel, Participant};
use veloren_network::error::ProtocolError;
use veloren_network::frame::Frame;
use veloren_network::handshake::{handshake_ok, ChannelState, SecretRegistry};
use veloren_network::promises::Promises;
use veloren_network::types::{Pid, Sid};

const MAGIC: [u8; 7] = [86, 69, 76, 79, 82, 69, 78];
const VERSION: [u32; 3] = [0, 5, 0];

fn established_channel() -> Channel {
    let mut ch = Channel::new(Pid::fake(1), false);
    ch.connect().unwrap();
    ch.handle_handshake(MAGIC, VERSION).unwrap();
    let mut reg = SecretRegistry::new();
    ch.handle_init(Pid::fake(2), 1234, &mut reg).unwrap();
    assert_eq!(ch.state(), ChannelState::Established);
    ch
}

#[test]
fn handshake_rejects_any_single_wrong_magic_byte() {
    for i in 0..7 {
        let mut magic = MAGIC;
        magic[i] ^= 0x01;
        assert!(!handshake_ok(&magic, &VERSION), "byte {i} must be checked");
    }
    assert!(handshake_ok(&MAGIC, &VERSION));
}

#[test]
fn handshake_rejects_wrong_major_version() {
    assert!(!handshake_ok(&MAGIC, &[1, 5, 0]));
    assert!(!handshake_ok(&MAGIC, &[0, 4, 0]));
    assert!(!handshake_ok(&MAGIC, &[0, 5, 1]));
}

#[test]
fn version_mismatch_closes_without_init() {
    // peer speaks version 1.0.0, we speak 0.5.0
    let mut ch = Channel::new(Pid::fake(0), true);
    ch.connect().unwrap();
    let r = ch.handle_handshake(MAGIC, [1, 0, 0]);
    assert_eq!(r, Err(ProtocolError::ProtocolMismatch));
    assert_eq!(ch.state(), ChannelState::Closed);
    // nothing further can be sent on this channel
    assert!(ch.handle_frame(Frame::Shutdown).is_err());
}

#[test]
fn handshake_match_produces_init() {
    let mut ch = Channel::new(Pid::fake(0), true);
    ch.connect().unwrap();
    match ch.handle_handshake(MAGIC, VERSION) {
        Ok(Frame::Init { pid, .. }) => assert!(pid == Pid::fake(0)),
        other => panic!("expected Init frame, got {:?}", other.is_ok()),
    }
    assert_eq!(ch.state(), ChannelState::AwaitingInit);
}

#[test]
fn responder_authenticates_resumption_secret() {
    let mut reg = SecretRegistry::new();
    let peer = Pid::fake(4);

    // first contact: the secret is recorded
    let mut ch1 = Channel::new(Pid::fake(1), false);
    ch1.connect().unwrap();
    ch1.handle_handshake(MAGIC, VERSION).unwrap();
    ch1.handle_init(peer, 777, &mut reg).unwrap();
    assert_eq!(ch1.state(), ChannelState::Established);
    assert!(ch1.remote_pid() == Some(peer));

    // reconnection with the same secret is accepted
    let mut ch2 = Channel::new(Pid::fake(1), false);
    ch2.connect().unwrap();
    ch2.handle_handshake(MAGIC, VERSION).unwrap();
    assert!(ch2.handle_init(peer, 777, &mut reg).is_ok());

    // reconnection with a different secret fails the channel attempt
    let mut ch3 = Channel::new(Pid::fake(1), false);
    ch3.connect().unwrap();
    ch3.handle_handshake(MAGIC, VERSION).unwrap();
    assert_eq!(
        ch3.handle_init(peer, 778, &mut reg),
        Err(ProtocolError::AuthenticationFailure)
    );
    assert_eq!(ch3.state(), ChannelState::Closed);
}

#[test]
fn close_then_stale_data_keeps_channel_established() {
    let mut ch = established_channel();
    let sid = Sid::new(3);
    ch.handle_frame(Frame::OpenStream { sid, prio: 0, promises: Promises::empty() })
        .unwrap();
    ch.handle_frame(Frame::DataHeader { mid: 1, sid, length: 50 }).unwrap();
    ch.handle_frame(Frame::CloseStream { sid }).unwrap();
    // a Data fragment raced against the CloseStream: dropped silently
    let out = ch
        .handle_frame(Frame::Data { mid: 1, start: 0, data: vec![0u8; 10] })
        .unwrap();
    assert!(out.is_empty());
    assert_eq!(ch.state(), ChannelState::Established);
}

#[test]
fn handshake_frame_while_established_is_violation() {
    let mut ch = established_channel();
    let r = ch.handle_frame(Frame::Handshake { magic_number: MAGIC, version: VERSION });
    assert_eq!(r, Err(ProtocolError::ProtocolViolation));
    let r = ch.handle_frame(Frame::Init { pid: Pid::fake(0), secret: 0 });
    assert_eq!(r, Err(ProtocolError::ProtocolViolation));
    assert_eq!(ch.state(), ChannelState::Established);
}

#[test]
fn shutdown_blocks_new_streams_but_drains_data() {
    let mut ch = established_channel();
    let sid = Sid::new(3);
    ch.handle_frame(Frame::OpenStream { sid, prio: 0, promises: Promises::empty() })
        .unwrap();
    ch.handle_frame(Frame::DataHeader { mid: 1, sid, length: 2 }).unwrap();
    ch.handle_frame(Frame::Shutdown).unwrap();
    assert_eq!(ch.state(), ChannelState::ShuttingDown);
    // no new stream may open now
    let r = ch.handle_frame(Frame::OpenStream {
        sid: Sid::new(4),
        prio: 0,
        promises: Promises::empty(),
    });
    assert_eq!(r, Err(ProtocolError::ProtocolViolation));
    // but in-flight data still drains
    let out = ch.handle_frame(Frame::Data { mid: 1, start: 0, data: vec![1, 2] }).unwrap();
    assert_eq!(out.len(), 1);
    assert!(ch.finish_shutdown().is_ok());
    assert_eq!(ch.state(), ChannelState::Closed);
}

#[test]
fn transport_failure_surfaces_exactly_once() {
    let mut ch = established_channel();
    assert_eq!(ch.on_transport_failure(), Some(ProtocolError::ChannelLost));
    assert_eq!(ch.state(), ChannelState::Closed);
    // idempotent: repeating never surfaces a second lost-channel event
    assert_eq!(ch.on_transport_failure(), None);
    assert_eq!(ch.on_transport_failure(), None);
}

#[test]
fn participant_torn_down_with_last_channel() {
    let mut p = Participant::new(Pid::fake(6));
    assert!(p.pid() == Pid::fake(6));
    p.add_channel(1).unwrap();
    p.add_channel(2).unwrap();
    assert!(p.add_channel(2).is_err());
    assert_eq!(p.channel_count(), 2);
    assert!(!p.channel_gone(1), "one channel remains");
    assert!(p.channel_gone(2), "last channel gone tears the participant down");
    assert_eq!(p.channel_count(), 0);
}

#[test]
fn raw_frames_are_not_routed_to_streams() {
    let mut ch = established_channel();
    let out = ch.handle_frame(Frame::Raw(b"debug".to_vec())).unwrap();
    assert!(out.is_empty());
    assert_eq!(ch.state(), ChannelState::Established);
}
