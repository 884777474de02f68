//! Priority scheduler: preference for low priority numbers without
//! starving anyone.

use veloren_network::error::ProtocolError;
use veloren_network::frame::Frame;
use veloren_network::scheduler::Scheduler;

fn marker(mid: u64) -> Frame {
    Frame::Data { mid, start: 0, data: Vec::new() }
}

fn mid_of(frame: &Frame) -> u64 {
    match frame {
        Frame::Data { mid, .. } => *mid,
        _ => panic!("expected Data frame"),
    }
}

#[test]
fn empty_scheduler_has_no_frame() {
    let mut s = Scheduler::new();
    assert!(s.next_frame().is_none());
    s.add_stream(1, 0).unwrap();
    assert!(s.next_frame().is_none());
}

#[test]
fn duplicate_or_unknown_streams_are_violations() {
    let mut s = Scheduler::new();
    s.add_stream(1, 0).unwrap();
    assert_eq!(s.add_stream(1, 3), Err(ProtocolError::ProtocolViolation));
    assert_eq!(s.enqueue(9, marker(0)), Err(ProtocolError::ProtocolViolation));
    assert_eq!(s.remove_stream(9), Err(ProtocolError::ProtocolViolation));
    s.remove_stream(1).unwrap();
}

#[test]
fn fifo_within_one_stream() {
    let mut s = Scheduler::new();
    s.add_stream(1, 0).unwrap();
    for mid in 0..5 {
        s.enqueue(1, marker(mid)).unwrap();
    }
    for mid in 0..5 {
        let (sid, f) = s.next_frame().unwrap();
        assert_eq!(sid, 1);
        assert_eq!(mid_of(&f), mid);
    }
    assert!(s.next_frame().is_none());
}

#[test]
fn low_priority_number_is_served_more_often() {
    let mut s = Scheduler::new();
    s.add_stream(1, 0).unwrap(); // high priority: deadline advances by 1
    s.add_stream(2, 3).unwrap(); // low priority: deadline advances by 4
    for mid in 0..8 {
        s.enqueue(1, marker(mid)).unwrap();
        s.enqueue(2, marker(100 + mid)).unwrap();
    }
    let mut served_high = 0;
    let mut served_low = 0;
    for _ in 0..8 {
        let (sid, _) = s.next_frame().unwrap();
        if sid == 1 {
            served_high += 1;
        } else {
            served_low += 1;
        }
    }
    assert!(served_high > served_low, "high priority must dominate");
    assert!(served_low > 0, "low priority must not starve");
}

#[test]
fn ready_stream_is_never_starved() {
    let mut s = Scheduler::new();
    s.add_stream(1, 0).unwrap();
    s.add_stream(2, 255).unwrap(); // worst priority
    for mid in 0..600 {
        s.enqueue(1, marker(mid)).unwrap();
    }
    s.enqueue(2, marker(999)).unwrap();
    let mut low_served = false;
    for _ in 0..601 {
        let (sid, f) = s.next_frame().unwrap();
        if sid == 2 {
            assert_eq!(mid_of(&f), 999);
            low_served = true;
        }
    }
    assert!(low_served, "even the worst priority is eventually served");
}

#[test]
fn equal_deadlines_break_ties_by_stream_id() {
    let mut s = Scheduler::new();
    s.add_stream(5, 1).unwrap();
    s.add_stream(3, 1).unwrap();
    s.enqueue(5, marker(55)).unwrap();
    s.enqueue(3, marker(33)).unwrap();
    let (sid, _) = s.next_frame().unwrap();
    assert_eq!(sid, 3);
}
