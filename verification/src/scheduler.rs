//! The priority scheduler: chooses the send order of frames queued by the
//! streams sharing one channel.
//!
//! Each stream carries a virtual deadline. The scheduler always serves the
//! ready stream (one with a queued frame) with the lexicographically least
//! (deadline, stream id), then advances that stream's deadline by its
//! priority number plus one. Streams with low priority numbers therefore
//! get served proportionally more often, while every ready stream's turn
//! comes around — a served stream's deadline always grows, so no ready
//! stream is starved forever and no stream waits behind an unbounded run
//! of another stream's frames.

use vstd::prelude::*;
use crate::error::ProtocolError;
use crate::frame::Frame;
use crate::store::{lemma_seq_get_at, lemma_seq_get_index, KvVec};

verus! {

/// One stream's send queue and scheduling state.
pub struct SchedEntry {
    /// The stream's priority number; lower goes first.
    pub prio: u8,
    /// The stream's virtual deadline; the least ready one is served.
    pub deadline: u64,
    /// The stream's frames, oldest first.
    pub queue: Vec<Frame>,
}

/// Whether (d1, s1) comes no later than (d2, s2) in deadline-then-id order.
pub open spec fn lex_le(d1: u64, s1: u64, d2: u64, s2: u64) -> bool {
    d1 < d2 || (d1 == d2 && s1 <= s2)
}

/// The deadline of a stream after one service, growing by priority + 1 and
/// saturating at the top of the range.
pub open spec fn next_deadline(deadline: u64, prio: u8) -> u64 {
    if deadline + prio + 1 > u64::MAX {
        u64::MAX
    } else {
        (deadline + prio + 1) as u64
    }
}

/// The send scheduler of one channel.
pub struct Scheduler {
    entries: KvVec<SchedEntry>,
}

impl Scheduler {
    /// The scheduling entry of stream `sid`, if the stream is registered.
    pub closed spec fn spec_entry(&self, sid: u64) -> Option<SchedEntry> {
        self.entries.spec_get(sid)
    }

    /// Stream ids are registered at most once.
    pub closed spec fn inv(&self) -> bool {
        self.entries.wf()
    }

    /// A scheduler with no streams.
    pub fn new() -> (r: Self)
        ensures
            r.inv(),
            forall|sid: u64| r.spec_entry(sid) is None,
    {
        Scheduler { entries: KvVec::new() }
    }

    /// Registers stream `sid` with priority `prio` and an empty queue.
    /// Fails with a protocol violation exactly when the stream is already
    /// registered, changing nothing.
    pub fn add_stream(&mut self, sid: u64, prio: u8) -> (r: Result<(), ProtocolError>)
        requires
            old(self).inv(),
        ensures
            final(self).inv(),
            match r {
                Ok(()) => old(self).spec_entry(sid) is None && (final(self).spec_entry(sid)
                    matches Some(e) && e.prio == prio && e.deadline == 0 && e.queue@.len() == 0) && (
                forall|k: u64| k != sid ==> final(self).spec_entry(k) == old(self).spec_entry(k)),
                Err(e) => e == ProtocolError::ProtocolViolation && old(self).spec_entry(
                    sid,
                ) is Some && *final(self) == *old(self),
            },
    {
        if self.entries.contains(sid) {
            return Err(ProtocolError::ProtocolViolation);
        }
        self.entries.insert_new(sid, SchedEntry { prio, deadline: 0, queue: Vec::new() });
        Ok(())
    }

    /// Drops stream `sid` and whatever frames it still had queued. Fails
    /// with a protocol violation exactly when no such stream is registered.
    pub fn remove_stream(&mut self, sid: u64) -> (r: Result<(), ProtocolError>)
        requires
            old(self).inv(),
        ensures
            final(self).inv(),
            match r {
                Ok(()) => old(self).spec_entry(sid) is Some && final(self).spec_entry(
                    sid,
                ) is None && (forall|k: u64|
                    k != sid ==> final(self).spec_entry(k) == old(self).spec_entry(k)),
                Err(e) => e == ProtocolError::ProtocolViolation && old(self).spec_entry(
                    sid,
                ) is None && *final(self) == *old(self),
            },
    {
        match self.entries.remove_key(sid) {
            Some(_) => Ok(()),
            None => Err(ProtocolError::ProtocolViolation),
        }
    }

    /// Queues `frame` on stream `sid`, behind its earlier frames. Fails
    /// with a protocol violation exactly when no such stream is registered.
    pub fn enqueue(&mut self, sid: u64, frame: Frame) -> (r: Result<(), ProtocolError>)
        requires
            old(self).inv(),
        ensures
            final(self).inv(),
            match r {
                Ok(()) => (old(self).spec_entry(sid) matches Some(e) && (final(self).spec_entry(
                    sid,
                ) matches Some(e2) && e2.prio == e.prio && e2.deadline == e.deadline && e2.queue@
                    == e.queue@.push(frame))) && (forall|k: u64|
                    k != sid ==> final(self).spec_entry(k) == old(self).spec_entry(k)),
                Err(e) => e == ProtocolError::ProtocolViolation && old(self).spec_entry(
                    sid,
                ) is None && *final(self) == *old(self),
            },
    {
        let mut e = match self.entries.remove_key(sid) {
            Some(e) => e,
            None => {
                return Err(ProtocolError::ProtocolViolation);
            },
        };
        e.queue.push(frame);
        self.entries.insert_new(sid, e);
        Ok(())
    }

    /// Takes the next frame to write to the channel: the oldest frame of
    /// the ready stream with the least (deadline, stream id), whose
    /// deadline then advances by its priority number plus one. Returns
    /// `None`, changing nothing, exactly when no stream has a frame queued.
    pub fn next_frame(&mut self) -> (r: Option<(u64, Frame)>)
        requires
            old(self).inv(),
        ensures
            final(self).inv(),
            match r {
                None => (forall|k: u64|
                    (#[trigger] old(self).spec_entry(k)) matches Some(e) ==> e.queue@.len() == 0)
                    && *final(self) == *old(self),
                Some((sid, f)) => (old(self).spec_entry(sid) matches Some(e) && e.queue@.len() > 0
                    && f == e.queue@[0] && (final(self).spec_entry(sid) matches Some(e2) && e2.prio
                    == e.prio && e2.deadline == next_deadline(e.deadline, e.prio) && e2.queue@
                    == e.queue@.drop_first()) && (forall|k: u64|
                    (#[trigger] old(self).spec_entry(k)) matches Some(e3) ==> (e3.queue@.len() > 0
                        ==> lex_le(e.deadline, sid, e3.deadline, k)))) && (forall|k: u64|
                    k != sid ==> final(self).spec_entry(k) == old(self).spec_entry(k)),
            },
    {
        let n = self.entries.len();
        let mut best: Option<usize> = None;
        let mut i: usize = 0;
        while i < n
            invariant
                i <= n,
                self.inv(),
                n == self.entries.seq().len(),
                match best {
                    Some(b) => b < i && self.entries.seq()[b as int].1.queue@.len() > 0 && forall|
                        j: int,
                    |
                        0 <= j < i && self.entries.seq()[j].1.queue@.len() > 0 ==> lex_le(
                            self.entries.seq()[b as int].1.deadline,
                            self.entries.seq()[b as int].0,
                            self.entries.seq()[j].1.deadline,
                            self.entries.seq()[j].0,
                        ),
                    None => forall|j: int|
                        0 <= j < i ==> self.entries.seq()[j].1.queue@.len() == 0,
                },
            decreases n - i,
        {
            if self.entries.at(i).1.queue.len() > 0 {
                match best {
                    None => {
                        best = Some(i);
                    },
                    Some(b) => {
                        let cur = self.entries.at(i);
                        let bst = self.entries.at(b);
                        if cur.1.deadline < bst.1.deadline || (cur.1.deadline == bst.1.deadline
                            && cur.0 < bst.0) {
                            best = Some(i);
                        }
                    },
                }
            }
            i = i + 1;
        }
        let b = match best {
            None => {
                proof {
                    assert forall|k: u64| (#[trigger] self.spec_entry(k)) is Some implies
                        self.spec_entry(k)->Some_0.queue@.len() == 0 by {
                        lemma_seq_get_index(self.entries.seq(), k);
                    }
                }
                return None;
            },
            Some(b) => b,
        };
        let sid = self.entries.at(b).0;
        proof {
            lemma_seq_get_at(self.entries.seq(), b as int);
        }
        let mut e = match self.entries.remove_key(sid) {
            Some(e) => e,
            None => {
                proof {
                    assert(false);
                }
                return None;
            },
        };
        let ghost e0 = e;
        let f = e.queue.remove(0);
        let adv = e.prio as u64 + 1;
        e.deadline = if e.deadline > u64::MAX - adv {
            u64::MAX
        } else {
            e.deadline + adv
        };
        proof {
            assert(e.deadline == next_deadline(e0.deadline, e0.prio));
            assert(e.queue@ =~= e0.queue@.drop_first());
        }
        self.entries.insert_new(sid, e);
        proof {
            assert forall|k: u64| (#[trigger] old(self).spec_entry(k)) is Some implies (old(
                self,
            ).spec_entry(k)->Some_0.queue@.len() > 0 ==> lex_le(
                e0.deadline,
                sid,
                old(self).spec_entry(k)->Some_0.deadline,
                k,
            )) by {
                lemma_seq_get_index(old(self).entries.seq(), k);
            }
        }
        Some((sid, f))
    }
}

} // verus!
