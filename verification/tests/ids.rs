//! Identifier types: participant ids, stream id halves, the digest
//! rendering, and promise-bit independence.

use veloren_network::promises::{
    Promises, ALL_PROMISES, COMPRESSED, CONSISTENCY, ENCRYPTED, GUARANTEED_DELIVERY, ORDERED,
};
use veloren_network::types::{
    sixlet_to_str, Pid, Sid, STREAM_ID_OFFSET1, STREAM_ID_OFFSET2,
};

#[test]
fn frame_creation() {
    Pid::new();
    assert_eq!(Pid::fake(0).to_string(), "AAAAAA");
    assert_eq!(Pid::fake(1).to_string(), "BBBBBB");
    assert_eq!(Pid::fake(2).to_string(), "CCCCCC");
}

#[test]
fn test_sixlet_to_str() {
    assert_eq!(sixlet_to_str(0), 'A');
    assert_eq!(sixlet_to_str(29), 'd');
    assert_eq!(sixlet_to_str(63), '/');
}

#[test]
fn pid_byte_roundtrip() {
    let pid = Pid::fake(5);
    assert!(Pid::from_le_bytes(pid.to_le_bytes()) == pid);
    let bytes = [
        1, 2, 3, 4, 5, 6, 7, 8, 9, 10, 11, 12, 13, 14, 15, 16,
    ];
    assert_eq!(Pid::from_le_bytes(bytes).to_le_bytes(), bytes);
}

#[test]
fn sid_byte_roundtrip() {
    let sid = Sid::new(0xdead_beef_0102_0304);
    assert!(Sid::from_le_bytes(sid.to_le_bytes()) == sid);
    assert_eq!(sid.to_le_bytes(), [0x04, 0x03, 0x02, 0x01, 0xef, 0xbe, 0xad, 0xde]);
    assert_eq!(Sid::new(7).value(), 7);
}

#[test]
fn sid_halves_never_collide() {
    // the initiator's half starts at 0, the responder's at the midpoint
    assert_eq!(STREAM_ID_OFFSET1, 0);
    assert_eq!(STREAM_ID_OFFSET2, 1u64 << 63);
    for i in 0..1000u64 {
        let initiator_sid = STREAM_ID_OFFSET1 + i;
        let responder_sid = STREAM_ID_OFFSET2 + i;
        assert_ne!(initiator_sid, responder_sid);
    }
    // boundary: the last id of each half, 2^63 ids in
    let last = (1u64 << 63) - 1;
    assert_ne!(STREAM_ID_OFFSET1 + last, STREAM_ID_OFFSET2 + last);
    assert_eq!(STREAM_ID_OFFSET2.checked_add(last), Some(u64::MAX));
}

#[test]
fn promise_bits_independent() {
    let flags = [ORDERED, CONSISTENCY, GUARANTEED_DELIVERY, COMPRESSED, ENCRYPTED];
    for &a in &flags {
        for &b in &flags {
            if a == b {
                continue;
            }
            for bits in [0u8, 0b10101, ALL_PROMISES] {
                let before = Promises::from_bits_truncate(bits);
                let after = before.union(Promises::from_bits_truncate(a));
                // enabling `a` neither changes `b`'s byte contribution...
                assert_eq!(after.bits() & b, before.bits() & b);
                // ...nor whether `b` reads as set; and `a` reads as set
                assert_eq!(
                    after.contains(Promises::from_bits_truncate(b)),
                    before.contains(Promises::from_bits_truncate(b))
                );
                assert!(after.contains(Promises::from_bits_truncate(a)));
            }
        }
    }
}

#[test]
fn promise_accessors_match_bits() {
    let p = Promises::from_bits_truncate(ORDERED | GUARANTEED_DELIVERY);
    assert!(p.ordered());
    assert!(!p.consistency());
    assert!(p.guaranteed_delivery());
    assert!(!p.compressed());
    assert!(!p.encrypted());
    assert!(p.valid());
    assert_eq!(p.to_le_bytes(), [0b101]);
    // unknown bits are dropped, defined ones kept
    assert_eq!(Promises::from_bits_truncate(0b1110_0110).bits(), 0b0000_0110);
}
