//! The stream multiplexer's receive side: per-stream bookkeeping and
//! per-message reassembly of incoming fragments, honoring each stream's
//! promises.
//!
//! Streams are keyed by stream id, in-flight messages by message id (one
//! message id is in flight at most once per channel, since Data frames name
//! no stream). A message completes when every byte of its declared length
//! has arrived; on an ORDERED stream a completed message is held back until
//! no lower message id is outstanding, so releases are strictly increasing.

use vstd::prelude::*;
use crate::error::ProtocolError;
use crate::frame::{Frame, FrameV};
use crate::types::Sid;
use crate::Mid;
use crate::promises::{spec_contains, Promises, CONSISTENCY, ORDERED};
use crate::store::{lemma_seq_get_at, lemma_seq_get_index, KvVec};

verus! {

/// How many entries of `s` are true.
pub open spec fn count_true(s: Seq<bool>) -> int
    decreases s.len(),
{
    if s.len() == 0 {
        0
    } else {
        count_true(s.drop_last()) + if s.last() {
            1int
        } else {
            0int
        }
    }
}

/// No entry of an all-false map is true.
pub proof fn lemma_count_true_all_false(n: nat)
    ensures
        count_true(Seq::new(n, |i: int| false)) == 0,
    decreases n,
{
    if n > 0 {
        lemma_count_true_all_false((n - 1) as nat);
        assert(Seq::new(n, |i: int| false).drop_last() =~= Seq::new(
            (n - 1) as nat,
            |i: int| false,
        ));
    }
}

/// At most every entry is true.
pub proof fn lemma_count_true_le_len(s: Seq<bool>)
    ensures
        0 <= count_true(s) <= s.len(),
    decreases s.len(),
{
    if s.len() > 0 {
        lemma_count_true_le_len(s.drop_last());
    }
}

/// Setting one entry true raises the count exactly when it was false.
pub proof fn lemma_count_true_update(s: Seq<bool>, i: int)
    requires
        0 <= i < s.len(),
    ensures
        count_true(s.update(i, true)) == count_true(s) + if s[i] {
            0int
        } else {
            1int
        },
    decreases s.len(),
{
    if i == s.len() - 1 {
        assert(s.update(i, true).drop_last() =~= s.drop_last());
    } else {
        assert(s.update(i, true).drop_last() =~= s.drop_last().update(i, true));
        lemma_count_true_update(s.drop_last(), i);
    }
}

/// A full count means every entry is true.
pub proof fn lemma_count_true_full(s: Seq<bool>)
    requires
        count_true(s) == s.len(),
    ensures
        forall|j: int| 0 <= j < s.len() ==> s[j],
    decreases s.len(),
{
    if s.len() > 0 {
        lemma_count_true_le_len(s.drop_last());
        lemma_count_true_full(s.drop_last());
        assert forall|j: int| 0 <= j < s.len() implies s[j] by {
            if j < s.len() - 1 {
                assert(s.drop_last()[j]);
            }
        }
    }
}

/// The byte map after receiving the range `[start, start + len)`.
pub open spec fn mark_range(r: Seq<bool>, start: int, len: int) -> Seq<bool> {
    Seq::new(r.len(), |i: int| if start <= i < start + len {
        true
    } else {
        r[i]
    })
}

/// The buffer after writing `frag` at offset `start`.
pub open spec fn apply_frag(d: Seq<u8>, start: int, frag: Seq<u8>) -> Seq<u8> {
    Seq::new(d.len(), |i: int| if start <= i < start + frag.len() {
        frag[i - start]
    } else {
        d[i]
    })
}

/// Whether fragment `(start, bytes)` covers payload position `i`.
pub open spec fn covers(frag: (int, Seq<u8>), i: int) -> bool {
    frag.0 <= i < frag.0 + frag.1.len()
}

/// Whether `frag` is a slice of `payload` at its own offset.
pub open spec fn is_slice_of(frag: (int, Seq<u8>), payload: Seq<u8>) -> bool {
    0 <= frag.0 && frag.0 + frag.1.len() <= payload.len() && frag.1 == payload.subrange(
        frag.0,
        frag.0 + frag.1.len(),
    )
}

/// Whether some fragment of `frags` covers position `i`.
pub open spec fn covered_by_some(frags: Seq<(int, Seq<u8>)>, i: int) -> bool {
    exists|j: int| 0 <= j < frags.len() && covers(#[trigger] frags[j], i)
}

/// The buffer after writing a list of fragments in order.
pub open spec fn apply_all(d: Seq<u8>, frags: Seq<(int, Seq<u8>)>) -> Seq<u8>
    decreases frags.len(),
{
    if frags.len() == 0 {
        d
    } else {
        apply_all(apply_frag(d, frags[0].0, frags[0].1), frags.drop_first())
    }
}

/// Writing fragments that are slices of one payload sets exactly the
/// covered positions to the payload's bytes and leaves the rest alone —
/// whatever order the fragments arrive in, since the result of each
/// position depends only on whether any fragment covers it.
pub proof fn lemma_apply_all_pointwise(d: Seq<u8>, payload: Seq<u8>, frags: Seq<(int, Seq<u8>)>)
    requires
        d.len() == payload.len(),
        forall|j: int| 0 <= j < frags.len() ==> is_slice_of(#[trigger] frags[j], payload),
    ensures
        apply_all(d, frags).len() == d.len(),
        forall|i: int|
            0 <= i < d.len() ==> apply_all(d, frags)[i] == if covered_by_some(frags, i) {
                payload[i]
            } else {
                d[i]
            },
    decreases frags.len(),
{
    if frags.len() > 0 {
        let d2 = apply_frag(d, frags[0].0, frags[0].1);
        let rest = frags.drop_first();
        assert(is_slice_of(frags[0], payload));
        assert forall|j: int| 0 <= j < rest.len() implies is_slice_of(
            #[trigger] rest[j],
            payload,
        ) by {
            assert(rest[j] == frags[j + 1]);
        }
        lemma_apply_all_pointwise(d2, payload, rest);
        assert forall|i: int|
            0 <= i < d.len() implies apply_all(d, frags)[i] == if covered_by_some(frags, i) {
                payload[i]
            } else {
                d[i]
            } by {
            if covered_by_some(rest, i) {
                let j = choose|j: int| 0 <= j < rest.len() && covers(#[trigger] rest[j], i);
                assert(covers(frags[j + 1], i));
            } else {
                if covers(frags[0], i) {
                    assert(d2[i] == payload[i]);
                } else {
                    assert(d2[i] == d[i]);
                    if covered_by_some(frags, i) {
                        let j = choose|j: int|
                            0 <= j < frags.len() && covers(#[trigger] frags[j], i);
                        assert(j >= 1);
                        assert(rest[j - 1] == frags[j]);
                        assert(covers(rest[j - 1], i));
                        assert(false);
                    }
                }
            }
        }
    }
}

/// Reassembly is order-independent: fragments that are slices of one
/// payload and together cover every position of `[0, len)` rebuild that
/// payload exactly, from any starting buffer of the right length — so any
/// two arrival orders of the same fragments give the same message.
pub proof fn lemma_reassembly_complete(d: Seq<u8>, payload: Seq<u8>, frags: Seq<(int, Seq<u8>)>)
    requires
        d.len() == payload.len(),
        forall|j: int| 0 <= j < frags.len() ==> is_slice_of(#[trigger] frags[j], payload),
        forall|i: int| 0 <= i < payload.len() ==> covered_by_some(frags, i),
    ensures
        apply_all(d, frags) =~= payload,
{
    lemma_apply_all_pointwise(d, payload, frags);
}

/// One open stream's receive-side state.
#[derive(Clone, Copy)]
pub struct Stream {
    /// Send priority declared at open time; lower numbers go first.
    pub prio: u8,
    /// The delivery promises declared at open time.
    pub promises: Promises,
    /// The highest message id released so far on an ORDERED stream.
    pub watermark: Option<u64>,
}

/// Whether `stream` carries the ORDERED promise.
pub open spec fn stream_ordered(stream: Stream) -> bool {
    spec_contains(stream.promises@, ORDERED)
}

/// Whether `mid` is above the stream's release watermark.
pub open spec fn above_watermark(watermark: Option<u64>, mid: u64) -> bool {
    match watermark {
        None => true,
        Some(w) => mid > w,
    }
}

/// One partially reassembled incoming message.
pub struct Assembly {
    /// The stream the message belongs to.
    pub sid: u64,
    /// The total payload length its DataHeader declared.
    pub length: usize,
    /// The payload bytes received so far (zero where nothing arrived yet).
    pub data: Vec<u8>,
    /// Which payload positions have been received.
    pub received: Vec<bool>,
    /// How many payload positions have been received.
    pub count: usize,
}

impl Assembly {
    /// The buffers match the declared length and the count matches the map.
    pub open spec fn wf(&self) -> bool {
        self.data@.len() == self.length && self.received@.len() == self.length && self.count
            == count_true(self.received@)
    }
}

/// One reassembled message held back for in-order release.
pub struct Held {
    /// The stream the message belongs to.
    pub sid: u64,
    /// The reassembled payload.
    pub payload: Vec<u8>,
}

/// One message handed to the application.
#[derive(Debug, PartialEq, Eq)]
pub struct Message {
    /// The stream the message arrived on.
    pub sid: u64,
    /// The message's id on that stream.
    pub mid: u64,
    /// The reassembled payload.
    pub payload: Vec<u8>,
    /// Whether the stream's CONSISTENCY promise asks the caller to verify
    /// payload integrity before accepting the message.
    pub needs_verify: bool,
}

/// Whether `stream` carries the CONSISTENCY promise.
pub open spec fn stream_consistency(stream: Stream) -> bool {
    spec_contains(stream.promises@, CONSISTENCY)
}

/// Whether some in-flight message on stream `sid` has an id below `mid`,
/// which blocks `mid` from ordered release.
pub open spec fn blocked(pending: Seq<(u64, Assembly)>, sid: u64, mid: u64) -> bool {
    exists|i: int| 0 <= i < pending.len() && pending[i].1.sid == sid && pending[i].0 < mid
}

/// A blocker on another stream survives removing an entry of this one.
proof fn lemma_blocked_after_remove(s: Seq<(u64, Assembly)>, ri: int, sid2: u64, k: u64)
    requires
        0 <= ri < s.len(),
        blocked(s, sid2, k),
        s[ri].1.sid != sid2,
    ensures
        blocked(s.remove(ri), sid2, k),
{
    let i = choose|i: int| 0 <= i < s.len() && s[i].1.sid == sid2 && s[i].0 < k;
    let j = if i < ri {
        i
    } else {
        i - 1
    };
    assert(s.remove(ri)[j] == s[i]);
}

/// A blocker survives replacing an entry by one with the same key and
/// stream.
proof fn lemma_blocked_after_replace(s: Seq<(u64, Assembly)>, ri: int, a2: Assembly, sid2: u64, k: u64)
    requires
        0 <= ri < s.len(),
        blocked(s, sid2, k),
        a2.sid == s[ri].1.sid,
    ensures
        blocked(s.remove(ri).push((s[ri].0, a2)), sid2, k),
{
    let s2 = s.remove(ri).push((s[ri].0, a2));
    let i = choose|i: int| 0 <= i < s.len() && s[i].1.sid == sid2 && s[i].0 < k;
    if i == ri {
        assert(s2[s2.len() - 1] == (s[ri].0, a2));
        assert(s2[s2.len() - 1].1.sid == sid2 && s2[s2.len() - 1].0 < k);
    } else {
        let j = if i < ri {
            i
        } else {
            i - 1
        };
        assert(s2[j] == s[i]);
    }
}

/// Writes fragment `payload` into `a` at offset `start`, marking the range
/// received and keeping the received count exact.
fn apply_fragment(a: &mut Assembly, start: usize, payload: &Vec<u8>)
    requires
        old(a).wf(),
        start + payload@.len() <= old(a).length,
    ensures
        final(a).wf(),
        final(a).sid == old(a).sid,
        final(a).length == old(a).length,
        final(a).count == count_true(final(a).received@),
        final(a).data@ == apply_frag(old(a).data@, start as int, payload@),
        final(a).received@ == mark_range(old(a).received@, start as int, payload@.len() as int),
{
    let n = payload.len();
    let ghost d0 = a.data@;
    let ghost r0 = a.received@;
    let mut i: usize = 0;
    proof {
        assert(a.data@ =~= apply_frag(d0, start as int, payload@.take(0)));
        assert(a.received@ =~= mark_range(r0, start as int, 0));
    }
    while i < n
        invariant
            i <= n,
            n == payload@.len(),
            start + n <= a.length,
            a.sid == old(a).sid,
            a.length == old(a).length,
            a.data@.len() == a.length,
            a.received@.len() == a.length,
            a.count == count_true(a.received@),
            a.data@ == apply_frag(d0, start as int, payload@.take(i as int)),
            a.received@ == mark_range(r0, start as int, i as int),
        decreases n - i,
    {
        let idx = start + i;
        let b = payload[i];
        let ghost dcur = a.data@;
        let ghost rcur = a.received@;
        let _ = a.data.remove(idx);
        a.data.insert(idx, b);
        proof {
            assert(a.data@ =~= dcur.update(idx as int, b));
            assert(a.data@ =~= apply_frag(d0, start as int, payload@.take(i as int + 1)));
        }
        if !a.received[idx] {
            let _ = a.received.remove(idx);
            a.received.insert(idx, true);
            proof {
                assert(a.received@ =~= rcur.update(idx as int, true));
                lemma_count_true_update(rcur, idx as int);
                lemma_count_true_le_len(a.received@);
            }
            a.count = a.count + 1;
        } else {
            proof {
                assert(a.received@ =~= rcur.update(idx as int, true));
            }
        }
        proof {
            assert(a.received@ =~= mark_range(r0, start as int, i as int + 1));
        }
        i = i + 1;
    }
    proof {
        assert(payload@.take(n as int) =~= payload@);
    }
}

/// What ordered release did, seen from before (`pre`) and after (`post`):
/// the messages appended to `msgs0` to give `msgs1` are exactly the held
/// messages of stream `sid` that no lower in-flight id blocks, in strictly
/// increasing id order, each above the stream's old watermark; the stream's
/// watermark ends at the last id released.
pub open spec fn release_post(
    pre: Multiplexer,
    post: Multiplexer,
    sid: u64,
    msgs0: Seq<Message>,
    msgs1: Seq<Message>,
) -> bool {
    let st = pre.spec_stream(sid)->Some_0;
    let rel = msgs1.skip(msgs0.len() as int);
    &&& forall|x: int|
        0 <= x < rel.len() ==> (#[trigger] rel[x]).sid == sid && rel[x].needs_verify
            == stream_consistency(st) && above_watermark(st.watermark, rel[x].mid) && !blocked(
            pre.spec_pending_seq(),
            sid,
            rel[x].mid,
        ) && pre.spec_completed(rel[x].mid) == Some(Held { sid, payload: rel[x].payload })
    &&& forall|x: int, y: int| 0 <= x < y < rel.len() ==> rel[x].mid < rel[y].mid
    &&& forall|k: u64|
        (#[trigger] post.spec_completed(k)) == (match pre.spec_completed(k) {
            Some(h) => if h.sid == sid && !blocked(pre.spec_pending_seq(), sid, k) {
                None::<Held>
            } else {
                Some(h)
            },
            None => None::<Held>,
        })
    &&& forall|k: u64|
        (#[trigger] pre.spec_completed(k)) matches Some(h) ==> ((h.sid == sid && !blocked(
            pre.spec_pending_seq(),
            sid,
            k,
        )) ==> exists|x: int| 0 <= x < rel.len() && (#[trigger] rel[x]).mid == k)
    &&& post.spec_stream(sid) == Some(
        Stream {
            prio: st.prio,
            promises: st.promises,
            watermark: if rel.len() == 0 {
                st.watermark
            } else {
                Some(rel[rel.len() - 1].mid)
            },
        },
    )
}

/// What completing message `mid` (reassembled to `newdata`) on the ORDERED
/// stream `sid` did: `msgs` are exactly the completed messages of the
/// stream that no lower in-flight id blocks — possibly including `mid`
/// itself — in strictly increasing id order; the rest stay held; the
/// watermark ends at the last id released.
pub open spec fn ordered_data_post(
    pre: Multiplexer,
    post: Multiplexer,
    mid: u64,
    sid: u64,
    newdata: Seq<u8>,
    st: Stream,
    msgs: Seq<Message>,
) -> bool {
    let p2 = post.spec_pending_seq();
    &&& forall|x: int, y: int| 0 <= x < y < msgs.len() ==> msgs[x].mid < msgs[y].mid
    &&& forall|x: int|
        0 <= x < msgs.len() ==> (#[trigger] msgs[x]).sid == sid && msgs[x].needs_verify
            == stream_consistency(st) && above_watermark(st.watermark, msgs[x].mid) && !blocked(
            p2,
            sid,
            msgs[x].mid,
        ) && (if msgs[x].mid == mid {
            msgs[x].payload@ == newdata
        } else {
            pre.spec_completed(msgs[x].mid) == Some(Held { sid, payload: msgs[x].payload })
        })
    &&& forall|k: u64|
        k != mid ==> ((#[trigger] post.spec_completed(k)) == (match pre.spec_completed(k) {
            Some(h) => if h.sid == sid && !blocked(p2, sid, k) {
                None::<Held>
            } else {
                Some(h)
            },
            None => None::<Held>,
        }))
    &&& (if blocked(p2, sid, mid) {
        post.spec_completed(mid) matches Some(h) && h.sid == sid && h.payload@ == newdata
    } else {
        post.spec_completed(mid) is None && exists|x: int|
            0 <= x < msgs.len() && (#[trigger] msgs[x]).mid == mid
    })
    &&& forall|k: u64|
        (#[trigger] pre.spec_completed(k)) matches Some(h) ==> ((h.sid == sid && !blocked(
            p2,
            sid,
            k,
        )) ==> exists|x: int| 0 <= x < msgs.len() && (#[trigger] msgs[x]).mid == k)
    &&& (post.spec_stream(sid) matches Some(st2) && st2.prio == st.prio && st2.promises
        == st.promises && (msgs.len() == 0 ==> st2.watermark == st.watermark) && (msgs.len() > 0
        ==> st2.watermark == Some(msgs[msgs.len() - 1].mid)))
    &&& forall|s2: u64| s2 != sid ==> post.spec_stream(s2) == pre.spec_stream(s2)
}

/// What `open_stream` did, for any outcome `r`.
pub open spec fn open_outcome(
    pre: Multiplexer,
    post: Multiplexer,
    sid: u64,
    prio: u8,
    promises: Promises,
    r: Result<(), ProtocolError>,
) -> bool {
    match r {
        Ok(()) => pre.spec_stream(sid) is None && post.spec_stream(sid) == Some(
            Stream { prio, promises, watermark: None::<u64> },
        ) && (forall|s2: u64| s2 != sid ==> post.spec_stream(s2) == pre.spec_stream(s2))
            && post.spec_pending_seq() == pre.spec_pending_seq() && post.spec_completed_seq()
            == pre.spec_completed_seq(),
        Err(e) => e == ProtocolError::ProtocolViolation && pre.spec_stream(sid) is Some && post
            == pre,
    }
}

/// What `close_stream` did, for any outcome `r`.
pub open spec fn close_outcome(
    pre: Multiplexer,
    post: Multiplexer,
    sid: u64,
    r: Result<(), ProtocolError>,
) -> bool {
    match r {
        Ok(()) => pre.spec_stream(sid) is Some && post.spec_stream(sid) is None && (forall|
            s2: u64,
        |
            s2 != sid ==> post.spec_stream(s2) == pre.spec_stream(s2)) && (forall|k: u64|
            post.spec_pending(k) == match pre.spec_pending(k) {
                Some(a) => if a.sid == sid {
                    None::<Assembly>
                } else {
                    Some(a)
                },
                None => None::<Assembly>,
            }) && (forall|k: u64|
            post.spec_completed(k) == match pre.spec_completed(k) {
                Some(h) => if h.sid == sid {
                    None::<Held>
                } else {
                    Some(h)
                },
                None => None::<Held>,
            }),
        Err(e) => e == ProtocolError::ProtocolViolation && pre.spec_stream(sid) is None && post
            == pre,
    }
}

/// What `handle_data_header` did, for any outcome `r`.
pub open spec fn header_outcome(
    pre: Multiplexer,
    post: Multiplexer,
    mid: u64,
    sid: u64,
    length: u64,
    r: Result<(), ProtocolError>,
) -> bool {
    match r {
        Ok(()) => pre.header_ok(mid, sid, length) && (post.spec_pending(mid) matches Some(a)
            && a.sid == sid && a.length == length && a.count == 0 && a.data@ =~= Seq::new(
            length as nat,
            |i: int| 0u8,
        ) && a.received@ =~= Seq::new(length as nat, |i: int| false)) && (forall|k: u64|
            k != mid ==> post.spec_pending(k) == pre.spec_pending(k)) && (forall|s2: u64|
            post.spec_stream(s2) == pre.spec_stream(s2)) && post.spec_completed_seq()
            == pre.spec_completed_seq(),
        Err(e) => e == ProtocolError::ProtocolViolation && !pre.header_ok(mid, sid, length) && post
            == pre,
    }
}

/// What `handle_data` did, for any outcome `r`.
pub open spec fn data_outcome(
    pre: Multiplexer,
    post: Multiplexer,
    mid: u64,
    start: u64,
    payload: Seq<u8>,
    r: Result<Vec<Message>, ProtocolError>,
) -> bool {
    match r {
        Err(e) => e == ProtocolError::ProtocolViolation && post == pre && (pre.spec_pending(mid)
            matches Some(a) && start + payload.len() > a.length),
        Ok(msgs) => match pre.spec_pending(mid) {
            None => msgs@.len() == 0 && post == pre,
            Some(a) => {
                let newdata = apply_frag(a.data@, start as int, payload);
                let newrecv = mark_range(a.received@, start as int, payload.len() as int);
                &&& start + payload.len() <= a.length
                &&& forall|k: u64| k != mid ==> post.spec_pending(k) == pre.spec_pending(k)
                &&& if count_true(newrecv) < a.length {
                    &&& msgs@.len() == 0
                    &&& (post.spec_pending(mid) matches Some(a2) && a2.sid == a.sid && a2.length
                        == a.length && a2.data@ == newdata && a2.received@ == newrecv)
                    &&& forall|k: u64| post.spec_completed(k) == pre.spec_completed(k)
                    &&& forall|s2: u64| post.spec_stream(s2) == pre.spec_stream(s2)
                } else {
                    &&& post.spec_pending(mid) is None
                    &&& match pre.spec_stream(a.sid) {
                        Some(st) => if !stream_ordered(st) {
                            &&& msgs@.len() == 1
                            &&& msgs@[0].sid == a.sid && msgs@[0].mid == mid && msgs@[0].payload@
                                == newdata && msgs@[0].needs_verify == stream_consistency(st)
                            &&& forall|k: u64| post.spec_completed(k) == pre.spec_completed(k)
                            &&& forall|s2: u64| post.spec_stream(s2) == pre.spec_stream(s2)
                        } else {
                            ordered_data_post(pre, post, mid, a.sid, newdata, st, msgs@)
                        },
                        None => false,
                    }
                }
            },
        },
    }
}

/// The receive half of one channel's stream multiplexer.
pub struct Multiplexer {
    streams: KvVec<Stream>,
    pending: KvVec<Assembly>,
    completed: KvVec<Held>,
}

impl Multiplexer {
    /// The open streams, keyed by stream id.
    pub closed spec fn spec_stream(&self, sid: u64) -> Option<Stream> {
        self.streams.spec_get(sid)
    }

    /// The in-flight (incomplete) messages, keyed by message id.
    pub closed spec fn spec_pending(&self, mid: u64) -> Option<Assembly> {
        self.pending.spec_get(mid)
    }

    /// The completed messages held for ordered release, keyed by message id.
    pub closed spec fn spec_completed(&self, mid: u64) -> Option<Held> {
        self.completed.spec_get(mid)
    }

    /// The in-flight message table itself, for `blocked`.
    pub closed spec fn spec_pending_seq(&self) -> Seq<(u64, Assembly)> {
        self.pending.seq()
    }

    /// The held-message table itself.
    pub closed spec fn spec_completed_seq(&self) -> Seq<(u64, Held)> {
        self.completed.seq()
    }

    /// The three tables keep their keys distinct.
    pub closed spec fn stores_wf(&self) -> bool {
        self.streams.wf() && self.pending.wf() && self.completed.wf()
    }

    /// What a well-formed in-flight entry satisfies: sound buffers, a
    /// stream that is still open, and an id above an ORDERED stream's
    /// watermark.
    pub open spec fn pending_ok(&self, mid: u64, a: Assembly) -> bool {
        a.wf() && match self.spec_stream(a.sid) {
            Some(st) => stream_ordered(st) ==> above_watermark(st.watermark, mid),
            None => false,
        }
    }

    /// What a well-formed held entry satisfies: an open ORDERED stream, an
    /// id above its watermark, and a lower in-flight id that blocks it.
    pub open spec fn held_ok(&self, mid: u64, h: Held) -> bool {
        match self.spec_stream(h.sid) {
            Some(st) => stream_ordered(st) && above_watermark(st.watermark, mid) && blocked(
                self.spec_pending_seq(),
                h.sid,
                mid,
            ),
            None => false,
        }
    }

    /// The multiplexer's invariant; every operation preserves it.
    pub open spec fn inv(&self) -> bool {
        &&& self.stores_wf()
        &&& forall|k: u64|
            (#[trigger] self.spec_pending(k)) matches Some(a) ==> self.pending_ok(k, a)
        &&& forall|k: u64|
            (#[trigger] self.spec_completed(k)) matches Some(h) ==> self.held_ok(k, h)
        &&& forall|k: u64|
            !((#[trigger] self.spec_pending(k)) is Some && (#[trigger] self.spec_completed(
                k,
            )) is Some)
    }

    /// A multiplexer with no streams and nothing in flight.
    pub fn new() -> (r: Self)
        ensures
            r.inv(),
            forall|sid: u64| r.spec_stream(sid) is None,
            forall|mid: u64| r.spec_pending(mid) is None,
            forall|mid: u64| r.spec_completed(mid) is None,
    {
        Multiplexer { streams: KvVec::new(), pending: KvVec::new(), completed: KvVec::new() }
    }

    /// Opens stream `sid` with the given priority and promises. Fails with a
    /// protocol violation exactly when the stream is already open, leaving
    /// the multiplexer unchanged.
    pub fn open_stream(&mut self, sid: u64, prio: u8, promises: Promises) -> (r: Result<
        (),
        ProtocolError,
    >)
        requires
            old(self).inv(),
        ensures
            final(self).inv(),
            open_outcome(*old(self), *final(self), sid, prio, promises, r),
    {
        if self.streams.contains(sid) {
            return Err(ProtocolError::ProtocolViolation);
        }
        self.streams.insert_new(sid, Stream { prio, promises, watermark: None });
        proof {
            assert forall|k: u64| (#[trigger] self.spec_pending(k)) is Some implies
                self.pending_ok(k, self.spec_pending(k)->Some_0) by {
                assert(old(self).spec_pending(k) == self.spec_pending(k));
                let a = self.spec_pending(k)->Some_0;
                assert(old(self).pending_ok(k, a));
                assert(old(self).spec_stream(a.sid) is Some);
                assert(a.sid != sid);
                assert(self.spec_stream(a.sid) == old(self).spec_stream(a.sid));
            }
            assert forall|k: u64| (#[trigger] self.spec_completed(k)) is Some implies
                self.held_ok(k, self.spec_completed(k)->Some_0) by {
                assert(old(self).spec_completed(k) == self.spec_completed(k));
                let h = self.spec_completed(k)->Some_0;
                assert(old(self).held_ok(k, h));
                assert(h.sid != sid);
                assert(self.spec_stream(h.sid) == old(self).spec_stream(h.sid));
                assert(self.spec_pending_seq() == old(self).spec_pending_seq());
            }
            assert forall|k: u64|
                !((#[trigger] self.spec_pending(k)) is Some && (#[trigger] self.spec_completed(
                    k,
                )) is Some) by {
                assert(self.spec_pending(k) == old(self).spec_pending(k));
                assert(self.spec_completed(k) == old(self).spec_completed(k));
            }
        }
        Ok(())
    }

    /// Closes stream `sid`, discarding its incomplete reassembly buffers and
    /// any completed messages still held for it. Fails with a protocol
    /// violation exactly when no such stream is open, leaving the
    /// multiplexer unchanged.
    pub fn close_stream(&mut self, sid: u64) -> (r: Result<(), ProtocolError>)
        requires
            old(self).inv(),
        ensures
            final(self).inv(),
            close_outcome(*old(self), *final(self), sid, r),
    {
        match self.streams.remove_key(sid) {
            None => Err(ProtocolError::ProtocolViolation),
            Some(_) => {
                let ghost p0 = self.pending;
                let ghost c0 = self.completed;
                let ghost st1 = self.streams;
                let mut i: usize = 0;
                while i < self.pending.len()
                    invariant
                        self.pending.wf(),
                        i <= self.pending.seq().len(),
                        self.streams == st1,
                        self.completed == c0,
                        forall|j: int| 0 <= j < i ==> self.pending.seq()[j].1.sid != sid,
                        forall|k: u64|
                            (#[trigger] self.pending.spec_get(k)) matches Some(a) ==> p0.spec_get(
                                k,
                            ) == Some(a),
                        forall|k: u64|
                            (#[trigger] p0.spec_get(k)) matches Some(a) ==> (a.sid != sid
                                ==> self.pending.spec_get(k) == Some(a)),
                    decreases self.pending.seq().len() - i,
                {
                    let drop_it = self.pending.at(i).1.sid == sid;
                    if drop_it {
                        proof {
                            lemma_seq_get_at(self.pending.seq(), i as int);
                        }
                        let _ = self.pending.remove_at(i);
                    } else {
                        i = i + 1;
                    }
                }
                proof {
                    assert forall|k: u64|
                        (#[trigger] self.pending.spec_get(k)) is Some implies self.pending.spec_get(
                        k,
                    )->Some_0.sid != sid by {
                        lemma_seq_get_index(self.pending.seq(), k);
                    }
                }
                let mut j: usize = 0;
                while j < self.completed.len()
                    invariant
                        self.pending.wf(),
                        self.completed.wf(),
                        j <= self.completed.seq().len(),
                        self.streams == st1,
                        forall|jj: int| 0 <= jj < j ==> self.completed.seq()[jj].1.sid != sid,
                        forall|k: u64|
                            (#[trigger] self.completed.spec_get(k)) matches Some(h) ==> c0.spec_get(
                                k,
                            ) == Some(h),
                        forall|k: u64|
                            (#[trigger] c0.spec_get(k)) matches Some(h) ==> (h.sid != sid
                                ==> self.completed.spec_get(k) == Some(h)),
                        forall|k: u64|
                            (#[trigger] self.pending.spec_get(k)) matches Some(a) ==> p0.spec_get(
                                k,
                            ) == Some(a) && a.sid != sid,
                        forall|k: u64|
                            (#[trigger] p0.spec_get(k)) matches Some(a) ==> (a.sid != sid
                                ==> self.pending.spec_get(k) == Some(a)),
                    decreases self.completed.seq().len() - j,
                {
                    let drop_it = self.completed.at(j).1.sid == sid;
                    if drop_it {
                        proof {
                            lemma_seq_get_at(self.completed.seq(), j as int);
                        }
                        let _ = self.completed.remove_at(j);
                    } else {
                        j = j + 1;
                    }
                }
                proof {
                    assert forall|k: u64|
                        (#[trigger] self.completed.spec_get(k)) is Some implies
                        self.completed.spec_get(k)->Some_0.sid != sid by {
                        lemma_seq_get_index(self.completed.seq(), k);
                    }
                    self.lemma_close_stream_inv(*old(self), sid, p0, c0);
                    assert forall|k: u64|
                        #![trigger self.spec_pending(k)]
                        self.spec_pending(k) == (match old(self).spec_pending(k) {
                            Some(a) => if a.sid == sid {
                                None::<Assembly>
                            } else {
                                Some(a)
                            },
                            None => None::<Assembly>,
                        }) by {
                        assert(old(self).spec_pending(k) == p0.spec_get(k));
                        match p0.spec_get(k) {
                            Some(a) => {
                                if a.sid == sid {
                                    if self.spec_pending(k) is Some {
                                        assert(p0.spec_get(k) == Some(
                                            self.spec_pending(k)->Some_0,
                                        ));
                                        assert(false);
                                    }
                                }
                            },
                            None => {
                                if self.spec_pending(k) is Some {
                                    assert(p0.spec_get(k) == Some(self.spec_pending(k)->Some_0));
                                    assert(false);
                                }
                            },
                        }
                    }
                    assert forall|k: u64|
                        #![trigger self.spec_completed(k)]
                        self.spec_completed(k) == (match old(self).spec_completed(k) {
                            Some(h) => if h.sid == sid {
                                None::<Held>
                            } else {
                                Some(h)
                            },
                            None => None::<Held>,
                        }) by {
                        assert(old(self).spec_completed(k) == c0.spec_get(k));
                        match c0.spec_get(k) {
                            Some(h) => {
                                if h.sid == sid {
                                    if self.spec_completed(k) is Some {
                                        assert(c0.spec_get(k) == Some(
                                            self.spec_completed(k)->Some_0,
                                        ));
                                        assert(false);
                                    }
                                }
                            },
                            None => {
                                if self.spec_completed(k) is Some {
                                    assert(c0.spec_get(k) == Some(
                                        self.spec_completed(k)->Some_0,
                                    ));
                                    assert(false);
                                }
                            },
                        }
                    }
                }
                Ok(())
            },
        }
    }

    /// Whether a DataHeader announcing message `mid` of `length` bytes on
    /// stream `sid` is acceptable: the stream is open, the id is new (and,
    /// on an ORDERED stream, above everything already released), and the
    /// buffer fits the machine.
    pub open spec fn header_ok(&self, mid: u64, sid: u64, length: u64) -> bool {
        &&& match self.spec_stream(sid) {
            Some(st) => stream_ordered(st) ==> above_watermark(st.watermark, mid),
            None => false,
        }
        &&& self.spec_pending(mid) is None
        &&& self.spec_completed(mid) is None
        &&& length <= usize::MAX
    }

    /// Starts reassembly of message `mid` on stream `sid` with declared
    /// total length `length`. Fails with a protocol violation exactly when
    /// `header_ok` does not hold, leaving the multiplexer unchanged.
    pub fn handle_data_header(&mut self, mid: u64, sid: u64, length: u64) -> (r: Result<
        (),
        ProtocolError,
    >)
        requires
            old(self).inv(),
        ensures
            final(self).inv(),
            header_outcome(*old(self), *final(self), mid, sid, length, r),
    {
        let st = match self.streams.get(sid) {
            None => {
                return Err(ProtocolError::ProtocolViolation);
            },
            Some(st) => *st,
        };
        if st.promises.ordered() {
            match st.watermark {
                Some(w) => if mid <= w {
                    return Err(ProtocolError::ProtocolViolation);
                },
                None => {},
            }
        }
        if self.pending.contains(mid) {
            return Err(ProtocolError::ProtocolViolation);
        }
        if self.completed.contains(mid) {
            return Err(ProtocolError::ProtocolViolation);
        }
        if length > usize::MAX as u64 {
            return Err(ProtocolError::ProtocolViolation);
        }
        let len = length as usize;
        let data: Vec<u8> = vec![0u8; len];
        let received: Vec<bool> = vec![false; len];
        let a = Assembly { sid, length: len, data, received, count: 0 };
        proof {
            lemma_count_true_all_false(len as nat);
            assert(a.received@ =~= Seq::new(len as nat, |i: int| false));
            assert(a.wf());
        }
        self.pending.insert_new(mid, a);
        proof {
            assert forall|k: u64| (#[trigger] self.spec_pending(k)) is Some implies
                self.pending_ok(k, self.spec_pending(k)->Some_0) by {
                let e = self.spec_pending(k)->Some_0;
                if k == mid {
                    assert(self.spec_stream(sid) == old(self).spec_stream(sid));
                } else {
                    assert(old(self).spec_pending(k) == self.spec_pending(k));
                    assert(old(self).pending_ok(k, e));
                    assert(self.spec_stream(e.sid) == old(self).spec_stream(e.sid));
                }
            }
            assert forall|k: u64| (#[trigger] self.spec_completed(k)) is Some implies
                self.held_ok(k, self.spec_completed(k)->Some_0) by {
                assert(old(self).spec_completed(k) == self.spec_completed(k));
                let h = self.spec_completed(k)->Some_0;
                assert(old(self).held_ok(k, h));
                assert(self.spec_stream(h.sid) == old(self).spec_stream(h.sid));
                assert(blocked(old(self).spec_pending_seq(), h.sid, k));
                let i = choose|i: int|
                    0 <= i < old(self).spec_pending_seq().len() && old(self).spec_pending_seq(
                    )[i].1.sid == h.sid && old(self).spec_pending_seq()[i].0 < k;
                assert(self.spec_pending_seq()[i] == old(self).spec_pending_seq()[i]);
                assert(blocked(self.spec_pending_seq(), h.sid, k));
            }
            assert forall|k: u64|
                !((#[trigger] self.spec_pending(k)) is Some && (#[trigger] self.spec_completed(
                    k,
                )) is Some) by {
                assert(self.spec_completed(k) == old(self).spec_completed(k));
                if k != mid {
                    assert(self.spec_pending(k) == old(self).spec_pending(k));
                }
            }
        }
        Ok(())
    }

    /// Whether any in-flight message belongs to a stream that promised
    /// GUARANTEED_DELIVERY — what a graceful shutdown still has to flush.
    pub fn has_guaranteed_pending(&self) -> (r: bool)
        requires
            self.inv(),
        ensures
            r == exists|i: int|
                0 <= i < self.spec_pending_seq().len() && (match self.spec_stream(
                    #[trigger] self.spec_pending_seq()[i].1.sid,
                ) {
                    Some(st) => spec_contains(
                        st.promises@,
                        crate::promises::GUARANTEED_DELIVERY,
                    ),
                    None => false,
                }),
    {
        let n = self.pending.len();
        let mut i: usize = 0;
        while i < n
            invariant
                i <= n,
                self.inv(),
                n == self.spec_pending_seq().len(),
                forall|j: int|
                    0 <= j < i ==> !(match self.spec_stream(
                        #[trigger] self.spec_pending_seq()[j].1.sid,
                    ) {
                        Some(st) => spec_contains(
                            st.promises@,
                            crate::promises::GUARANTEED_DELIVERY,
                        ),
                        None => false,
                    }),
            decreases n - i,
        {
            let sid = self.pending.at(i).1.sid;
            proof {
                lemma_seq_get_at(self.spec_pending_seq(), i as int);
            }
            match self.streams.get(sid) {
                Some(st) => {
                    if st.promises.guaranteed_delivery() {
                        return true;
                    }
                },
                None => {
                    proof {
                        let e = self.spec_pending_seq()[i as int];
                        assert(self.spec_pending(e.0) == Some(e.1));
                        assert(self.pending_ok(e.0, e.1));
                        assert(false);
                    }
                },
            }
            i = i + 1;
        }
        false
    }

    /// The position of the held message with the lowest id on stream `sid`,
    /// if any is held.
    fn find_min_held(&self, sid: u64) -> (r: Option<usize>)
        ensures
            match r {
                Some(i) => i < self.spec_completed_seq().len() && self.spec_completed_seq(
                )[i as int].1.sid == sid && forall|j: int|
                    0 <= j < self.spec_completed_seq().len() && self.spec_completed_seq()[j].1.sid
                        == sid ==> self.spec_completed_seq()[i as int].0
                        <= self.spec_completed_seq()[j].0,
                None => forall|j: int|
                    0 <= j < self.spec_completed_seq().len() ==> self.spec_completed_seq()[j].1.sid
                        != sid,
            },
    {
        let n = self.completed.len();
        let mut best: Option<usize> = None;
        let mut i: usize = 0;
        while i < n
            invariant
                i <= n,
                n == self.spec_completed_seq().len(),
                match best {
                    Some(b) => b < i && self.spec_completed_seq()[b as int].1.sid == sid && forall|
                        j: int,
                    |
                        0 <= j < i && self.spec_completed_seq()[j].1.sid == sid
                            ==> self.spec_completed_seq()[b as int].0 <= self.spec_completed_seq(
                        )[j].0,
                    None => forall|j: int|
                        0 <= j < i ==> self.spec_completed_seq()[j].1.sid != sid,
                },
            decreases n - i,
        {
            if self.completed.at(i).1.sid == sid {
                match best {
                    None => {
                        best = Some(i);
                    },
                    Some(b) => {
                        if self.completed.at(i).0 < self.completed.at(b).0 {
                            best = Some(i);
                        }
                    },
                }
            }
            i = i + 1;
        }
        best
    }

    /// Whether some in-flight message on stream `sid` has an id below `mid`.
    fn is_blocked(&self, sid: u64, mid: u64) -> (r: bool)
        ensures
            r == blocked(self.spec_pending_seq(), sid, mid),
    {
        let n = self.pending.len();
        let mut i: usize = 0;
        while i < n
            invariant
                i <= n,
                n == self.spec_pending_seq().len(),
                forall|j: int|
                    0 <= j < i ==> !(self.spec_pending_seq()[j].1.sid == sid
                        && self.spec_pending_seq()[j].0 < mid),
            decreases n - i,
        {
            let e = self.pending.at(i);
            if e.1.sid == sid && e.0 < mid {
                return true;
            }
            i = i + 1;
        }
        false
    }

    /// Releases to `msgs`, in increasing id order, every message held on the
    /// ORDERED stream `sid` that no lower in-flight id blocks any longer,
    /// advancing the stream's watermark past each one.
    fn release_ordered(&mut self, sid: u64, msgs: &mut Vec<Message>)
        requires
            old(self).stores_wf(),
            old(self).spec_stream(sid) matches Some(st) && stream_ordered(st),
            forall|k: u64|
                (#[trigger] old(self).spec_pending(k)) matches Some(a) ==> old(self).pending_ok(
                    k,
                    a,
                ),
            forall|k: u64|
                (#[trigger] old(self).spec_completed(k)) matches Some(h) ==> (match old(
                    self,
                ).spec_stream(h.sid) {
                    Some(st2) => stream_ordered(st2) && above_watermark(st2.watermark, k),
                    None => false,
                }),
            forall|k: u64|
                (#[trigger] old(self).spec_completed(k)) matches Some(h) ==> (h.sid != sid
                    ==> blocked(old(self).spec_pending_seq(), h.sid, k)),
            forall|k: u64|
                !((#[trigger] old(self).spec_pending(k)) is Some && (#[trigger] old(
                    self,
                ).spec_completed(k)) is Some),
        ensures
            final(self).inv(),
            final(self).spec_pending_seq() == old(self).spec_pending_seq(),
            forall|k: u64| final(self).spec_pending(k) == old(self).spec_pending(k),
            forall|s2: u64| s2 != sid ==> final(self).spec_stream(s2) == old(self).spec_stream(s2),
            final(msgs)@.len() >= old(msgs)@.len(),
            final(msgs)@.take(old(msgs)@.len() as int) == old(msgs)@,
            release_post(*old(self), *final(self), sid, old(msgs)@, final(msgs)@),
    {
        let ghost st_orig = old(self).spec_stream(sid)->Some_0;
        let ghost p1 = old(self).spec_pending_seq();
        let ghost pend0 = self.pending;
        let ghost strm0 = self.streams;
        let ghost comp0 = self.completed;
        let ghost m0 = msgs@.len() as int;
        let ghost msgs0 = msgs@;
        let mut done = false;
        proof {
            assert forall|k: u64| (#[trigger] comp0.spec_get(k)) is Some implies (match
                strm0.spec_get(comp0.spec_get(k)->Some_0.sid) {
                Some(st2) => stream_ordered(st2) && above_watermark(st2.watermark, k),
                None => false,
            }) by {
                assert(old(self).spec_completed(k) == comp0.spec_get(k));
                let h = comp0.spec_get(k)->Some_0;
                assert(old(self).spec_stream(h.sid) == strm0.spec_get(h.sid));
            }
            assert forall|k: u64| (#[trigger] comp0.spec_get(k)) is Some implies (
                comp0.spec_get(k)->Some_0.sid != sid ==> blocked(
                p1,
                comp0.spec_get(k)->Some_0.sid,
                k,
            )) by {
                assert(old(self).spec_completed(k) == comp0.spec_get(k));
            }
            assert forall|k: u64|
                !((#[trigger] pend0.spec_get(k)) is Some && comp0.spec_get(k) is Some) by {
                assert(old(self).spec_pending(k) == pend0.spec_get(k));
                assert(old(self).spec_completed(k) == comp0.spec_get(k));
            }
            assert(msgs@.skip(m0) =~= Seq::<Message>::empty());
            assert(msgs@.take(m0) =~= msgs0);
        }
        while !done
            invariant
                old(self).stores_wf(),
                old(self).spec_stream(sid) == Some(st_orig),
                stream_ordered(st_orig),
                pend0 == old(self).pending,
                strm0 == old(self).streams,
                comp0 == old(self).completed,
                p1 == old(self).spec_pending_seq(),
                m0 == msgs0.len(),
                msgs0 == old(msgs)@,
                forall|k: u64|
                    (#[trigger] comp0.spec_get(k)) is Some ==> (match strm0.spec_get(
                        comp0.spec_get(k)->Some_0.sid,
                    ) {
                        Some(st2) => stream_ordered(st2) && above_watermark(st2.watermark, k),
                        None => false,
                    }),
                forall|k: u64|
                    (#[trigger] comp0.spec_get(k)) is Some ==> (comp0.spec_get(k)->Some_0.sid
                        != sid ==> blocked(p1, comp0.spec_get(k)->Some_0.sid, k)),
                forall|k: u64| !((#[trigger] pend0.spec_get(k)) is Some && comp0.spec_get(k) is Some),
                self.stores_wf(),
                self.pending == pend0,
                forall|s2: u64| s2 != sid ==> self.spec_stream(s2) == strm0.spec_get(s2),
                msgs@.len() >= m0,
                msgs@.take(m0) == msgs0,
                ({
                    let rel = msgs@.skip(m0);
                    &&& self.spec_stream(sid) == Some(Stream {
                        prio: st_orig.prio,
                        promises: st_orig.promises,
                        watermark: if rel.len() == 0 {
                            st_orig.watermark
                        } else {
                            Some(rel[rel.len() - 1].mid)
                        },
                    })
                    &&& forall|x: int|
                        0 <= x < rel.len() ==> (#[trigger] rel[x]).sid == sid
                            && rel[x].needs_verify == stream_consistency(st_orig)
                            && above_watermark(st_orig.watermark, rel[x].mid) && !blocked(
                            p1,
                            sid,
                            rel[x].mid,
                        ) && comp0.spec_get(rel[x].mid) == Some(
                            Held { sid, payload: rel[x].payload },
                        )
                    &&& forall|x: int, y: int| 0 <= x < y < rel.len() ==> rel[x].mid < rel[y].mid
                    &&& forall|k: u64|
                        (#[trigger] self.spec_completed(k)) == if exists|x: int|
                            0 <= x < rel.len() && (#[trigger] rel[x]).mid == k {
                            None::<Held>
                        } else {
                            comp0.spec_get(k)
                        }
                    &&& forall|k: u64|
                        (#[trigger] self.spec_completed(k)) matches Some(h) ==> (h.sid == sid ==> (
                        rel.len() == 0 || k > rel[rel.len() - 1].mid))
                    &&& (done ==> forall|k: u64|
                        (#[trigger] self.spec_completed(k)) matches Some(h) ==> (h.sid == sid
                            ==> blocked(p1, sid, k)))
                }),
            decreases
                    (if done {
                        0int
                    } else {
                        1int
                    }),
                    self.spec_completed_seq().len(),
        {
            let ghost rel_pre = msgs@.skip(m0);
            match self.find_min_held(sid) {
                None => {
                    proof {
                        assert forall|k: u64| (#[trigger] self.spec_completed(k)) is Some implies
                            !(self.spec_completed(k)->Some_0.sid == sid) by {
                            lemma_seq_get_index(self.spec_completed_seq(), k);
                        }
                    }
                    done = true;
                },
                Some(i) => {
                    let kmin = self.completed.at(i).0;
                    proof {
                        lemma_seq_get_at(self.spec_completed_seq(), i as int);
                    }
                    if self.is_blocked(sid, kmin) {
                        proof {
                            assert forall|k: u64|
                                (#[trigger] self.spec_completed(k)) is Some implies (
                            self.spec_completed(k)->Some_0.sid == sid ==> blocked(p1, sid, k)) by {
                                let h = self.spec_completed(k)->Some_0;
                                if h.sid == sid {
                                    lemma_seq_get_index(self.spec_completed_seq(), k);
                                    let j = choose|j: int|
                                        0 <= j < self.spec_completed_seq().len()
                                            && self.spec_completed_seq()[j].0 == k
                                            && crate::store::seq_get(
                                            self.spec_completed_seq(),
                                            k,
                                        ) == Some(self.spec_completed_seq()[j].1);
                                    assert(kmin <= k);
                                    let b = choose|b: int|
                                        0 <= b < p1.len() && p1[b].1.sid == sid && p1[b].0 < kmin;
                                    assert(p1[b].0 < k);
                                }
                            }
                        }
                        done = true;
                    } else {
                        proof {
                            assert(self.spec_completed(kmin) == Some(
                                self.spec_completed_seq()[i as int].1,
                            ));
                        }
                        let ghost selfpre = *self;
                        let (krel, h) = self.completed.remove_at(i);
                        proof {
                            assert(selfpre.spec_completed(krel) == Some(h));
                            assert(h.sid == sid);
                            if exists|x: int|
                                0 <= x < rel_pre.len() && (#[trigger] rel_pre[x]).mid == krel {
                                let x = choose|x: int|
                                    0 <= x < rel_pre.len() && (#[trigger] rel_pre[x]).mid == krel;
                                assert(selfpre.spec_completed(krel) is None);
                                assert(false);
                            }
                            assert(comp0.spec_get(krel) == Some(h));
                            assert(Held { sid, payload: h.payload } == h);
                            assert(rel_pre.len() == 0 || krel > rel_pre[rel_pre.len() - 1].mid);
                        }
                        let st = match self.streams.get(sid) {
                            Some(st) => *st,
                            None => {
                                proof {
                                    assert(false);
                                }
                                Stream {
                                    prio: 0,
                                    promises: crate::promises::Promises::empty(),
                                    watermark: None,
                                }
                            },
                        };
                        self.streams.replace(
                            sid,
                            Stream { prio: st.prio, promises: st.promises, watermark: Some(krel) },
                        );
                        let needs_verify = st.promises.consistency();
                        msgs.push(Message { sid, mid: krel, payload: h.payload, needs_verify });
                        proof {
                            let rel = msgs@.skip(m0);
                            assert(rel =~= rel_pre.push(msgs@[msgs@.len() - 1]));
                            assert(msgs@.take(m0) =~= msgs0);
                            assert(self.spec_pending_seq() == p1);
                            assert(st.prio == st_orig.prio && st.promises == st_orig.promises);
                            assert(rel[rel.len() - 1] == Message {
                                sid,
                                mid: krel,
                                payload: h.payload,
                                needs_verify,
                            });
                            assert(needs_verify == stream_consistency(st_orig));
                            assert(strm0.spec_get(sid) == Some(st_orig));
                            assert(above_watermark(st_orig.watermark, krel));
                            assert(!blocked(p1, sid, krel));
                            assert forall|x: int| 0 <= x < rel.len() implies (#[trigger] rel[x]).sid
                                == sid && rel[x].needs_verify == stream_consistency(st_orig)
                                && above_watermark(st_orig.watermark, rel[x].mid) && !blocked(
                                p1,
                                sid,
                                rel[x].mid,
                            ) && comp0.spec_get(rel[x].mid) == Some(
                                Held { sid, payload: rel[x].payload },
                            ) by {
                                if x < rel.len() - 1 {
                                    assert(rel[x] == rel_pre[x]);
                                }
                            }
                            assert forall|x: int, y: int| 0 <= x < y < rel.len() implies rel[x].mid
                                < rel[y].mid by {
                                if y < rel.len() - 1 {
                                    assert(rel_pre[x].mid < rel_pre[y].mid);
                                } else {
                                    assert(rel[x] == rel_pre[x]);
                                    if x < rel_pre.len() - 1 {
                                        assert(rel_pre[x].mid < rel_pre[rel_pre.len() - 1].mid);
                                    }
                                }
                            }
                            assert forall|k: u64|
                                (#[trigger] self.spec_completed(k)) == (if exists|x: int|
                                    0 <= x < rel.len() && (#[trigger] rel[x]).mid == k {
                                    None::<Held>
                                } else {
                                    comp0.spec_get(k)
                                }) by {
                                if k == krel {
                                    assert(rel[rel.len() - 1].mid == k);
                                    assert(self.spec_completed(k) is None);
                                } else {
                                    assert(self.spec_completed(k) == selfpre.spec_completed(k));
                                    if exists|x: int|
                                        0 <= x < rel_pre.len() && (#[trigger] rel_pre[x]).mid
                                            == k {
                                        let x = choose|x: int|
                                            0 <= x < rel_pre.len() && (#[trigger] rel_pre[x]).mid
                                                == k;
                                        assert(rel[x].mid == k);
                                    } else {
                                        if exists|x: int|
                                            0 <= x < rel.len() && (#[trigger] rel[x]).mid == k {
                                            let x = choose|x: int|
                                                0 <= x < rel.len() && (#[trigger] rel[x]).mid
                                                    == k;
                                            assert(x == rel.len() - 1);
                                            assert(false);
                                        }
                                    }
                                }
                            }
                            assert forall|k: u64| (#[trigger] self.spec_completed(k)) is Some
                                implies (self.spec_completed(k)->Some_0.sid == sid ==> (rel.len()
                                == 0 || k > rel[rel.len() - 1].mid)) by {
                                let h2 = self.spec_completed(k)->Some_0;
                                if h2.sid == sid {
                                    assert(k != krel);
                                    assert(selfpre.spec_completed(k) == Some(h2));
                                    lemma_seq_get_index(selfpre.spec_completed_seq(), k);
                                    let j = choose|j: int|
                                        0 <= j < selfpre.spec_completed_seq().len()
                                            && selfpre.spec_completed_seq()[j].0 == k
                                            && crate::store::seq_get(
                                            selfpre.spec_completed_seq(),
                                            k,
                                        ) == Some(selfpre.spec_completed_seq()[j].1);
                                    assert(kmin <= k);
                                }
                            }
                        }
                    }
                },
            }
        }
        proof {
            self.lemma_release_exit(*old(self), sid, st_orig, p1, comp0, msgs0, msgs@);
        }
    }

    /// Routes one Data fragment of message `mid`: writes `payload` at offset
    /// `start` into the message's reassembly buffer, and returns every
    /// message this completes, ordered streams releasing strictly in
    /// increasing id order.
    ///
    /// A fragment for an unknown message id — for instance one whose stream
    /// a CloseStream already discarded — is dropped silently. A fragment
    /// reaching past the declared length is rejected as a protocol
    /// violation without touching any state.
    pub fn handle_data(&mut self, mid: u64, start: u64, payload: &Vec<u8>) -> (r: Result<
        Vec<Message>,
        ProtocolError,
    >)
        requires
            old(self).inv(),
        ensures
            final(self).inv(),
            data_outcome(*old(self), *final(self), mid, start, payload@, r),
    {
        let mut msgs: Vec<Message> = Vec::new();
        let alen = match self.pending.get(mid) {
            None => {
                return Ok(msgs);
            },
            Some(a) => a.length,
        };
        proof {
            let a0 = old(self).spec_pending(mid)->Some_0;
            assert(old(self).pending_ok(mid, a0));
        }
        if start > alen as u64 || payload.len() as u64 > alen as u64 - start {
            return Err(ProtocolError::ProtocolViolation);
        }
        let ghost pre = *old(self);
        let mut a = match self.pending.remove_key(mid) {
            Some(a) => a,
            None => {
                proof {
                    assert(false);
                }
                return Ok(msgs);
            },
        };
        let ghost ri = choose|ri: int|
            0 <= ri < pre.spec_pending_seq().len() && pre.spec_pending_seq()[ri].0 == mid
                && pre.spec_pending_seq()[ri].1 == a && self.spec_pending_seq()
                == pre.spec_pending_seq().remove(ri);
        apply_fragment(&mut a, start as usize, payload);
        if a.count < a.length {
            let ghost a2 = a;
            self.pending.insert_new(mid, a);
            proof {
                self.lemma_data_incomplete_inv(pre, mid, a2, ri);
            }
            return Ok(msgs);
        }
        proof {
            lemma_count_true_le_len(a.received@);
            lemma_count_true_full(a.received@);
        }
        let sid = a.sid;
        let st = match self.streams.get(sid) {
            Some(st) => *st,
            None => {
                proof {
                    assert(false);
                }
                return Ok(msgs);
            },
        };
        if !st.promises.ordered() {
            let needs_verify = st.promises.consistency();
            msgs.push(Message { sid, mid, payload: a.data, needs_verify });
            proof {
                assert(msgs@.len() == 1);
                self.lemma_data_unordered_inv(pre, mid, sid, st, ri);
            }
            Ok(msgs)
        } else {
            let hnew = Held { sid, payload: a.data };
            let ghost hnew_g = hnew;
            proof {
                assert(pre.spec_completed(mid) is None);
            }
            self.completed.insert_new(mid, hnew);
            let ghost imd = *self;
            proof {
                self.lemma_data_ordered_pre(pre, mid, sid, st, hnew_g, ri);
            }
            self.release_ordered(sid, &mut msgs);
            proof {
                self.lemma_data_ordered_glue(pre, imd, mid, sid, st, hnew_g, msgs@);
            }
            Ok(msgs)
        }
    }

    /// Restores the invariant after an incomplete fragment write: the
    /// message's entry was replaced by one with the same stream and id.
    proof fn lemma_data_incomplete_inv(&self, pre: Self, mid: u64, a2: Assembly, ri: int)
        requires
            pre.inv(),
            0 <= ri < pre.spec_pending_seq().len(),
            pre.spec_pending_seq()[ri].0 == mid,
            a2.sid == pre.spec_pending_seq()[ri].1.sid,
            a2.wf(),
            self.stores_wf(),
            self.streams == pre.streams,
            self.completed == pre.completed,
            self.spec_pending_seq() == pre.spec_pending_seq().remove(ri).push((mid, a2)),
            forall|k: u64| k != mid ==> self.spec_pending(k) == pre.spec_pending(k),
            self.spec_pending(mid) == Some(a2),
        ensures
            self.inv(),
    {
        lemma_seq_get_at(pre.spec_pending_seq(), ri);
        assert(pre.spec_pending(mid) == Some(pre.spec_pending_seq()[ri].1));
        assert forall|k: u64| (#[trigger] self.spec_pending(k)) is Some implies self.pending_ok(
            k,
            self.spec_pending(k)->Some_0,
        ) by {
            let av = self.spec_pending(k)->Some_0;
            if k == mid {
                let orig = pre.spec_pending_seq()[ri].1;
                assert(pre.pending_ok(mid, orig));
                assert(av == a2);
                assert(self.spec_stream(a2.sid) == pre.spec_stream(a2.sid));
            } else {
                assert(pre.spec_pending(k) == Some(av));
                assert(pre.pending_ok(k, av));
                assert(self.spec_stream(av.sid) == pre.spec_stream(av.sid));
            }
        }
        assert forall|k: u64| (#[trigger] self.spec_completed(k)) is Some implies self.held_ok(
            k,
            self.spec_completed(k)->Some_0,
        ) by {
            let h = self.spec_completed(k)->Some_0;
            assert(pre.spec_completed(k) == Some(h));
            assert(pre.held_ok(k, h));
            assert(self.spec_stream(h.sid) == pre.spec_stream(h.sid));
            lemma_blocked_after_replace(pre.spec_pending_seq(), ri, a2, h.sid, k);
        }
        assert forall|k: u64|
            !((#[trigger] self.spec_pending(k)) is Some && (#[trigger] self.spec_completed(
                k,
            )) is Some) by {
            if self.spec_pending(k) is Some && self.spec_completed(k) is Some {
                assert(pre.spec_completed(k) == self.spec_completed(k));
                if k == mid {
                    assert(pre.spec_pending(mid) is Some);
                } else {
                    assert(pre.spec_pending(k) is Some);
                }
            }
        }
    }

    /// Restores the invariant after a completed message on a stream without
    /// ORDERED was delivered at once: its entry simply left the table.
    proof fn lemma_data_unordered_inv(&self, pre: Self, mid: u64, sid: u64, st: Stream, ri: int)
        requires
            pre.inv(),
            0 <= ri < pre.spec_pending_seq().len(),
            pre.spec_pending_seq()[ri].0 == mid,
            pre.spec_pending_seq()[ri].1.sid == sid,
            pre.spec_stream(sid) == Some(st),
            !stream_ordered(st),
            self.stores_wf(),
            self.streams == pre.streams,
            self.completed == pre.completed,
            self.spec_pending_seq() == pre.spec_pending_seq().remove(ri),
            forall|k: u64| k != mid ==> self.spec_pending(k) == pre.spec_pending(k),
            self.spec_pending(mid) is None,
        ensures
            self.inv(),
    {
        assert forall|k: u64| (#[trigger] self.spec_pending(k)) is Some implies self.pending_ok(
            k,
            self.spec_pending(k)->Some_0,
        ) by {
            let av = self.spec_pending(k)->Some_0;
            assert(pre.spec_pending(k) == Some(av));
            assert(pre.pending_ok(k, av));
            assert(self.spec_stream(av.sid) == pre.spec_stream(av.sid));
        }
        assert forall|k: u64| (#[trigger] self.spec_completed(k)) is Some implies self.held_ok(
            k,
            self.spec_completed(k)->Some_0,
        ) by {
            let h = self.spec_completed(k)->Some_0;
            assert(pre.spec_completed(k) == Some(h));
            assert(pre.held_ok(k, h));
            assert(self.spec_stream(h.sid) == pre.spec_stream(h.sid));
            assert(h.sid != sid);
            lemma_blocked_after_remove(pre.spec_pending_seq(), ri, h.sid, k);
        }
        assert forall|k: u64|
            !((#[trigger] self.spec_pending(k)) is Some && (#[trigger] self.spec_completed(
                k,
            )) is Some) by {
            if self.spec_pending(k) is Some && self.spec_completed(k) is Some {
                assert(pre.spec_pending(k) is Some);
                assert(pre.spec_completed(k) == self.spec_completed(k));
            }
        }
    }

    /// Establishes what ordered release relies on, once a completed message
    /// has moved from the in-flight table to the held table.
    proof fn lemma_data_ordered_pre(
        &self,
        pre: Self,
        mid: u64,
        sid: u64,
        st: Stream,
        hnew: Held,
        ri: int,
    )
        requires
            pre.inv(),
            0 <= ri < pre.spec_pending_seq().len(),
            pre.spec_pending_seq()[ri].0 == mid,
            pre.spec_pending_seq()[ri].1.sid == sid,
            pre.spec_stream(sid) == Some(st),
            stream_ordered(st),
            hnew.sid == sid,
            self.stores_wf(),
            self.streams == pre.streams,
            self.spec_pending_seq() == pre.spec_pending_seq().remove(ri),
            forall|k: u64| k != mid ==> self.spec_pending(k) == pre.spec_pending(k),
            self.spec_pending(mid) is None,
            forall|k: u64| k != mid ==> self.spec_completed(k) == pre.spec_completed(k),
            self.spec_completed(mid) == Some(hnew),
        ensures
            self.spec_stream(sid) == Some(st),
            forall|k: u64|
                (#[trigger] self.spec_pending(k)) matches Some(a) ==> self.pending_ok(k, a),
            forall|k: u64|
                (#[trigger] self.spec_completed(k)) matches Some(h) ==> (match self.spec_stream(
                    h.sid,
                ) {
                    Some(st2) => stream_ordered(st2) && above_watermark(st2.watermark, k),
                    None => false,
                }),
            forall|k: u64|
                (#[trigger] self.spec_completed(k)) matches Some(h) ==> (h.sid != sid ==> blocked(
                    self.spec_pending_seq(),
                    h.sid,
                    k,
                )),
            forall|k: u64|
                !((#[trigger] self.spec_pending(k)) is Some && (#[trigger] self.spec_completed(
                    k,
                )) is Some),
    {
        lemma_seq_get_at(pre.spec_pending_seq(), ri);
        assert(pre.spec_pending(mid) == Some(pre.spec_pending_seq()[ri].1));
        assert(pre.pending_ok(mid, pre.spec_pending_seq()[ri].1));
        assert forall|k: u64| (#[trigger] self.spec_pending(k)) is Some implies self.pending_ok(
            k,
            self.spec_pending(k)->Some_0,
        ) by {
            let av = self.spec_pending(k)->Some_0;
            assert(pre.spec_pending(k) == Some(av));
            assert(pre.pending_ok(k, av));
            assert(self.spec_stream(av.sid) == pre.spec_stream(av.sid));
        }
        assert forall|k: u64| (#[trigger] self.spec_completed(k)) is Some implies (match
            self.spec_stream(self.spec_completed(k)->Some_0.sid) {
            Some(st2) => stream_ordered(st2) && above_watermark(st2.watermark, k),
            None => false,
        }) by {
            let h = self.spec_completed(k)->Some_0;
            if k == mid {
                assert(h == hnew);
                assert(self.spec_stream(sid) == pre.spec_stream(sid));
            } else {
                assert(pre.spec_completed(k) == Some(h));
                assert(pre.held_ok(k, h));
                assert(self.spec_stream(h.sid) == pre.spec_stream(h.sid));
            }
        }
        assert forall|k: u64| (#[trigger] self.spec_completed(k)) is Some implies (
            self.spec_completed(k)->Some_0.sid != sid ==> blocked(
            self.spec_pending_seq(),
            self.spec_completed(k)->Some_0.sid,
            k,
        )) by {
            let h = self.spec_completed(k)->Some_0;
            if h.sid != sid {
                assert(k != mid);
                assert(pre.spec_completed(k) == Some(h));
                assert(pre.held_ok(k, h));
                lemma_blocked_after_remove(pre.spec_pending_seq(), ri, h.sid, k);
            }
        }
        assert forall|k: u64|
            !((#[trigger] self.spec_pending(k)) is Some && (#[trigger] self.spec_completed(
                k,
            )) is Some) by {
            if self.spec_pending(k) is Some && self.spec_completed(k) is Some {
                assert(k != mid);
                assert(pre.spec_pending(k) is Some);
                assert(pre.spec_completed(k) == self.spec_completed(k));
            }
        }
    }

    /// Turns the release description over the intermediate state (message
    /// already moved to the held table) into one over the state the
    /// fragment arrived in.
    proof fn lemma_data_ordered_glue(
        &self,
        pre: Self,
        imd: Self,
        mid: u64,
        sid: u64,
        st: Stream,
        hnew: Held,
        msgs1: Seq<Message>,
    )
        requires
            pre.spec_stream(sid) == Some(st),
            stream_ordered(st),
            hnew.sid == sid,
            imd.spec_completed(mid) == Some(hnew),
            forall|k: u64| k != mid ==> imd.spec_completed(k) == pre.spec_completed(k),
            forall|s2: u64| imd.spec_stream(s2) == pre.spec_stream(s2),
            forall|k: u64| self.spec_pending(k) == imd.spec_pending(k),
            self.spec_pending_seq() == imd.spec_pending_seq(),
            forall|s2: u64| s2 != sid ==> self.spec_stream(s2) == imd.spec_stream(s2),
            release_post(imd, *self, sid, Seq::<Message>::empty(), msgs1),
        ensures
            ordered_data_post(pre, *self, mid, sid, hnew.payload@, st, msgs1),
    {
        let rel = msgs1.skip(0);
        assert(rel =~= msgs1);
        let p2 = self.spec_pending_seq();
        assert(imd.spec_stream(sid) == Some(st));
        assert forall|x: int| 0 <= x < msgs1.len() implies (#[trigger] msgs1[x]).sid == sid
            && msgs1[x].needs_verify == stream_consistency(st) && above_watermark(
            st.watermark,
            msgs1[x].mid,
        ) && !blocked(p2, sid, msgs1[x].mid) && (if msgs1[x].mid == mid {
            msgs1[x].payload@ == hnew.payload@
        } else {
            pre.spec_completed(msgs1[x].mid) == Some(Held { sid, payload: msgs1[x].payload })
        }) by {
            assert(rel[x] == msgs1[x]);
            assert(imd.spec_completed(msgs1[x].mid) == Some(
                Held { sid, payload: msgs1[x].payload },
            ));
            if msgs1[x].mid == mid {
                assert(Held { sid, payload: msgs1[x].payload } == hnew);
            }
        }
        assert forall|k: u64|
            k != mid implies ((#[trigger] self.spec_completed(k)) == (match pre.spec_completed(
                k,
            ) {
                Some(h) => if h.sid == sid && !blocked(p2, sid, k) {
                    None::<Held>
                } else {
                    Some(h)
                },
                None => None::<Held>,
            })) by {
            assert(imd.spec_completed(k) == pre.spec_completed(k));
            assert(self.spec_completed(k) == (match imd.spec_completed(k) {
                Some(h) => if h.sid == sid && !blocked(imd.spec_pending_seq(), sid, k) {
                    None::<Held>
                } else {
                    Some(h)
                },
                None => None::<Held>,
            }));
        }
        assert(self.spec_completed(mid) == (match imd.spec_completed(mid) {
            Some(h) => if h.sid == sid && !blocked(imd.spec_pending_seq(), sid, mid) {
                None::<Held>
            } else {
                Some(h)
            },
            None => None::<Held>,
        }));
        if !blocked(p2, sid, mid) {
            assert(self.spec_completed(mid) is None);
            assert(imd.spec_completed(mid) matches Some(h) && h.sid == sid);
            assert(exists|x: int| 0 <= x < rel.len() && (#[trigger] rel[x]).mid == mid);
            assert forall|x: int|
                0 <= x < rel.len() && (#[trigger] rel[x]).mid == mid implies 0 <= x < msgs1.len()
                && msgs1[x].mid == mid by {
                assert(rel[x] == msgs1[x]);
            }
            let x = choose|x: int| 0 <= x < rel.len() && (#[trigger] rel[x]).mid == mid;
            assert(msgs1[x].mid == mid);
        }
        assert forall|k: u64| (#[trigger] pre.spec_completed(k)) is Some implies ((
        pre.spec_completed(k)->Some_0.sid == sid && !blocked(p2, sid, k)) ==> exists|x: int|
            0 <= x < msgs1.len() && (#[trigger] msgs1[x]).mid == k) by {
            let h = pre.spec_completed(k)->Some_0;
            if h.sid == sid && !blocked(p2, sid, k) {
                if k == mid {
                    assert(imd.spec_completed(mid) == Some(hnew));
                    assert(exists|x: int| 0 <= x < rel.len() && (#[trigger] rel[x]).mid == k);
                } else {
                    assert(imd.spec_completed(k) == Some(h));
                    assert(exists|x: int| 0 <= x < rel.len() && (#[trigger] rel[x]).mid == k);
                }
                let x = choose|x: int| 0 <= x < rel.len() && (#[trigger] rel[x]).mid == k;
                assert(msgs1[x].mid == k);
            }
        }
    }

    /// Assembles the invariant and the release description once the release
    /// loop has stopped.
    proof fn lemma_release_exit(
        &self,
        pre: Self,
        sid: u64,
        st_orig: Stream,
        p1: Seq<(u64, Assembly)>,
        comp0: KvVec<Held>,
        msgs0: Seq<Message>,
        msgs1: Seq<Message>,
    )
        requires
            pre.stores_wf(),
            pre.spec_stream(sid) == Some(st_orig),
            stream_ordered(st_orig),
            p1 == pre.spec_pending_seq(),
            comp0 == pre.completed,
            forall|k: u64|
                (#[trigger] pre.spec_pending(k)) matches Some(a) ==> pre.pending_ok(k, a),
            forall|k: u64|
                (#[trigger] comp0.spec_get(k)) matches Some(h) ==> (match pre.streams.spec_get(
                    h.sid,
                ) {
                    Some(st2) => stream_ordered(st2) && above_watermark(st2.watermark, k),
                    None => false,
                }),
            forall|k: u64|
                (#[trigger] comp0.spec_get(k)) matches Some(h) ==> (h.sid != sid ==> blocked(
                    p1,
                    h.sid,
                    k,
                )),
            forall|k: u64|
                !((#[trigger] pre.spec_pending(k)) is Some && pre.spec_completed(k) is Some),
            self.stores_wf(),
            self.pending == pre.pending,
            forall|s2: u64| s2 != sid ==> self.spec_stream(s2) == pre.streams.spec_get(s2),
            msgs1.len() >= msgs0.len(),
            msgs1.take(msgs0.len() as int) == msgs0,
            ({
                let rel = msgs1.skip(msgs0.len() as int);
                &&& self.spec_stream(sid) == Some(
                    Stream {
                        prio: st_orig.prio,
                        promises: st_orig.promises,
                        watermark: if rel.len() == 0 {
                            st_orig.watermark
                        } else {
                            Some(rel[rel.len() - 1].mid)
                        },
                    },
                )
                &&& forall|x: int|
                    0 <= x < rel.len() ==> (#[trigger] rel[x]).sid == sid && rel[x].needs_verify
                        == stream_consistency(st_orig) && above_watermark(
                        st_orig.watermark,
                        rel[x].mid,
                    ) && !blocked(p1, sid, rel[x].mid) && comp0.spec_get(rel[x].mid) == Some(
                        Held { sid, payload: rel[x].payload },
                    )
                &&& forall|x: int, y: int| 0 <= x < y < rel.len() ==> rel[x].mid < rel[y].mid
                &&& forall|k: u64|
                    (#[trigger] self.spec_completed(k)) == if exists|x: int|
                        0 <= x < rel.len() && (#[trigger] rel[x]).mid == k {
                        None::<Held>
                    } else {
                        comp0.spec_get(k)
                    }
                &&& forall|k: u64|
                    (#[trigger] self.spec_completed(k)) matches Some(h) ==> (h.sid == sid ==> (
                    rel.len() == 0 || k > rel[rel.len() - 1].mid))
                &&& forall|k: u64|
                    (#[trigger] self.spec_completed(k)) matches Some(h) ==> (h.sid == sid
                        ==> blocked(p1, sid, k))
            }),
        ensures
            self.inv(),
            release_post(pre, *self, sid, msgs0, msgs1),
    {
        let rel = msgs1.skip(msgs0.len() as int);
        assert forall|k: u64| pre.spec_completed(k) == comp0.spec_get(k) by {}
        // The final held table, described by blockedness rather than by rel.
        assert forall|k: u64|
            (#[trigger] self.spec_completed(k)) == (match pre.spec_completed(k) {
                Some(h) => if h.sid == sid && !blocked(pre.spec_pending_seq(), sid, k) {
                    None::<Held>
                } else {
                    Some(h)
                },
                None => None::<Held>,
            }) by {
            match comp0.spec_get(k) {
                Some(h) => {
                    if h.sid == sid && !blocked(p1, sid, k) {
                        if self.spec_completed(k) is Some {
                            assert(blocked(p1, sid, k));
                            assert(false);
                        }
                    } else if h.sid == sid {
                        if exists|x: int| 0 <= x < rel.len() && (#[trigger] rel[x]).mid == k {
                            let x = choose|x: int|
                                0 <= x < rel.len() && (#[trigger] rel[x]).mid == k;
                            assert(!blocked(p1, sid, rel[x].mid));
                            assert(false);
                        }
                    } else {
                        if exists|x: int| 0 <= x < rel.len() && (#[trigger] rel[x]).mid == k {
                            let x = choose|x: int|
                                0 <= x < rel.len() && (#[trigger] rel[x]).mid == k;
                            assert(comp0.spec_get(k) == Some(
                                Held { sid, payload: rel[x].payload },
                            ));
                            assert(false);
                        }
                    }
                },
                None => {
                    if exists|x: int| 0 <= x < rel.len() && (#[trigger] rel[x]).mid == k {
                        let x = choose|x: int|
                            0 <= x < rel.len() && (#[trigger] rel[x]).mid == k;
                        assert(comp0.spec_get(k) == Some(Held { sid, payload: rel[x].payload }));
                        assert(false);
                    }
                },
            }
        }
        assert forall|k: u64|
            (#[trigger] pre.spec_completed(k)) is Some implies ((pre.spec_completed(k)->Some_0.sid
                == sid && !blocked(pre.spec_pending_seq(), sid, k)) ==> exists|x: int|
                0 <= x < rel.len() && (#[trigger] rel[x]).mid == k) by {
            let h = pre.spec_completed(k)->Some_0;
            if h.sid == sid && !blocked(p1, sid, k) {
                assert(self.spec_completed(k) is None);
            }
        }
        // The invariant.
        assert forall|k: u64| (#[trigger] self.spec_pending(k)) is Some implies self.pending_ok(
            k,
            self.spec_pending(k)->Some_0,
        ) by {
            let a = self.spec_pending(k)->Some_0;
            assert(pre.spec_pending(k) == self.spec_pending(k));
            assert(pre.pending_ok(k, a));
            if a.sid == sid {
                if rel.len() > 0 {
                    let last = rel[rel.len() - 1].mid;
                    assert(!blocked(p1, sid, last));
                    assert(comp0.spec_get(last) is Some);
                    assert(pre.spec_completed(last) is Some);
                    if k == last {
                        assert(pre.spec_pending(last) is Some && pre.spec_completed(
                            last,
                        ) is Some);
                        assert(false);
                    }
                    if k < last {
                        lemma_seq_get_index(p1, k);
                        assert(blocked(p1, sid, last));
                        assert(false);
                    }
                }
            } else {
                assert(self.spec_stream(a.sid) == pre.streams.spec_get(a.sid));
            }
        }
        assert forall|k: u64| (#[trigger] self.spec_completed(k)) is Some implies self.held_ok(
            k,
            self.spec_completed(k)->Some_0,
        ) by {
            let h = self.spec_completed(k)->Some_0;
            assert(comp0.spec_get(k) == Some(h));
            assert(self.spec_pending_seq() == p1);
            if h.sid == sid {
                assert(blocked(p1, sid, k));
                if rel.len() > 0 {
                    assert(k > rel[rel.len() - 1].mid);
                }
            } else {
                assert(self.spec_stream(h.sid) == pre.streams.spec_get(h.sid));
                assert(blocked(p1, h.sid, k));
            }
        }
        assert forall|k: u64|
            !((#[trigger] self.spec_pending(k)) is Some && (#[trigger] self.spec_completed(
                k,
            )) is Some) by {
            if self.spec_pending(k) is Some && self.spec_completed(k) is Some {
                assert(pre.spec_pending(k) is Some);
                assert(pre.spec_completed(k) == comp0.spec_get(k));
                assert(pre.spec_completed(k) is Some);
            }
        }
    }

    /// Restores the invariant after `close_stream` has filtered the tables.
    proof fn lemma_close_stream_inv(
        &self,
        pre: Self,
        sid: u64,
        p0: KvVec<Assembly>,
        c0: KvVec<Held>,
    )
        requires
            pre.inv(),
            p0 == pre.pending,
            c0 == pre.completed,
            self.streams.wf(),
            self.pending.wf(),
            self.completed.wf(),
            pre.streams.spec_get(sid) is Some,
            self.streams.spec_get(sid) is None,
            forall|s2: u64| s2 != sid ==> self.streams.spec_get(s2) == pre.streams.spec_get(s2),
            forall|k: u64|
                (#[trigger] self.pending.spec_get(k)) matches Some(a) ==> p0.spec_get(k) == Some(a)
                    && a.sid != sid,
            forall|k: u64|
                (#[trigger] p0.spec_get(k)) matches Some(a) ==> (a.sid != sid
                    ==> self.pending.spec_get(k) == Some(a)),
            forall|k: u64|
                (#[trigger] self.completed.spec_get(k)) matches Some(h) ==> c0.spec_get(k) == Some(
                    h,
                ) && h.sid != sid,
            forall|k: u64|
                (#[trigger] c0.spec_get(k)) matches Some(h) ==> (h.sid != sid
                    ==> self.completed.spec_get(k) == Some(h)),
        ensures
            self.inv(),
    {
        assert forall|k: u64| (#[trigger] self.spec_pending(k)) is Some implies self.pending_ok(
            k,
            self.spec_pending(k)->Some_0,
        ) by {
            let a = self.spec_pending(k)->Some_0;
            assert(pre.spec_pending(k) == p0.spec_get(k));
            assert(pre.pending_ok(k, a));
            assert(a.sid != sid);
            assert(self.spec_stream(a.sid) == pre.spec_stream(a.sid));
        }
        assert forall|k: u64| (#[trigger] self.spec_completed(k)) is Some implies self.held_ok(
            k,
            self.spec_completed(k)->Some_0,
        ) by {
            let h = self.spec_completed(k)->Some_0;
            assert(pre.spec_completed(k) == c0.spec_get(k));
            assert(pre.held_ok(k, h));
            assert(h.sid != sid);
            assert(self.spec_stream(h.sid) == pre.spec_stream(h.sid));
            assert(blocked(pre.pending.seq(), h.sid, k));
            let i = choose|i: int|
                0 <= i < pre.pending.seq().len() && pre.pending.seq()[i].1.sid == h.sid
                    && pre.pending.seq()[i].0 < k;
            lemma_seq_get_at(pre.pending.seq(), i);
            let bk = pre.pending.seq()[i].0;
            let ba = pre.pending.seq()[i].1;
            assert(self.pending.spec_get(bk) == Some(ba));
            lemma_seq_get_index(self.pending.seq(), bk);
            let i2 = choose|i2: int|
                0 <= i2 < self.pending.seq().len() && self.pending.seq()[i2].0 == bk
                    && crate::store::seq_get(self.pending.seq(), bk) == Some(
                    self.pending.seq()[i2].1,
                );
            assert(self.pending.seq()[i2].1 == ba);
            assert(0 <= i2 < self.pending.seq().len() && self.pending.seq()[i2].1.sid == h.sid
                && self.pending.seq()[i2].0 < k);
            assert(blocked(self.pending.seq(), h.sid, k));
        }
        assert forall|k: u64|
            !((#[trigger] self.spec_pending(k)) is Some && (#[trigger] self.spec_completed(
                k,
            )) is Some) by {
            if self.spec_pending(k) is Some && self.spec_completed(k) is Some {
                assert(pre.spec_pending(k) is Some && pre.spec_completed(k) is Some);
            }
        }
    }
}

/// ORDERED streams deliver across calls in increasing id order: whatever a
/// later fragment arrival on the stream releases carries a higher message
/// id than everything an earlier arrival released, because each release
/// leaves the watermark at its last id and later releases stay above the
/// watermark. With the in-call ordering of `ordered_data_post`, deliveries
/// on an ORDERED stream are strictly increasing over the channel's life.
pub proof fn lemma_ordered_delivery_monotonic(
    s0: Multiplexer,
    s1: Multiplexer,
    s2: Multiplexer,
    mid1: u64,
    mid2: u64,
    sid: u64,
    d1: Seq<u8>,
    d2: Seq<u8>,
    st0: Stream,
    st1: Stream,
    msgs1: Seq<Message>,
    msgs2: Seq<Message>,
)
    requires
        ordered_data_post(s0, s1, mid1, sid, d1, st0, msgs1),
        ordered_data_post(s1, s2, mid2, sid, d2, st1, msgs2),
        s1.spec_stream(sid) == Some(st1),
        msgs1.len() > 0,
    ensures
        forall|x: int, y: int|
            0 <= x < msgs1.len() && 0 <= y < msgs2.len() ==> msgs1[x].mid < msgs2[y].mid,
{
    let last = msgs1[msgs1.len() - 1].mid;
    assert(st1.watermark == Some(last));
    assert forall|x: int, y: int|
        0 <= x < msgs1.len() && 0 <= y < msgs2.len() implies msgs1[x].mid < msgs2[y].mid by {
        assert(above_watermark(st1.watermark, msgs2[y].mid));
        assert(msgs2[y].mid > last);
        if x < msgs1.len() - 1 {
            assert(msgs1[x].mid < last);
        }
    }
}

/// What to do with a reassembled message once its integrity transform has
/// run (or was never owed).
#[derive(PartialEq, Eq, Structural, Clone, Copy, Debug)]
pub enum IntegrityOutcome {
    /// Hand the message to the application.
    Deliver,
    /// Drop the message; under GUARANTEED_DELIVERY the loss must surface as
    /// a retry-needed condition rather than silently.
    Discard { retry_needed: bool },
}

/// Decides a reassembled message's fate from its stream's promises and the
/// result of the integrity check: a verified (or unchecked) message is
/// delivered; a corrupted one is discarded, and needs a retry exactly when
/// the stream promised GUARANTEED_DELIVERY.
pub fn classify_integrity(promises: Promises, ok: bool) -> (r: IntegrityOutcome)
    ensures
        r == if ok {
            IntegrityOutcome::Deliver
        } else {
            IntegrityOutcome::Discard {
                retry_needed: spec_contains(promises@, crate::promises::GUARANTEED_DELIVERY),
            }
        },
{
    if ok {
        IntegrityOutcome::Deliver
    } else {
        IntegrityOutcome::Discard { retry_needed: promises.guaranteed_delivery() }
    }
}

/// Splits a message into one DataHeader frame followed by Data frames of at
/// most `max_frag` bytes whose offsets partition the payload contiguously:
/// fragment `i` (counting from 1) starts at byte `(i-1) * max_frag`. A
/// message of length zero travels as the header plus one empty fragment.
pub fn fragment_message(mid: Mid, sid: Sid, payload: &Vec<u8>, max_frag: usize) -> (r: Vec<Frame>)
    requires
        max_frag >= 1,
    ensures
        r@.len() >= 2,
        forall|i: int| 0 <= i < r@.len() ==> (#[trigger] r@[i])@.wf(),
        r@[0]@ == (FrameV::DataHeader { mid, sid: sid@, length: payload@.len() as u64 }),
        forall|i: int|
            1 <= i < r@.len() ==> (#[trigger] r@[i])@ == (FrameV::Data {
                mid,
                start: ((i - 1) * max_frag) as u64,
                data: payload@.subrange(
                    (i - 1) * max_frag,
                    if i * max_frag <= payload@.len() {
                        i * max_frag
                    } else {
                        payload@.len() as int
                    },
                ),
            }),
        payload@.len() == 0 ==> r@.len() == 2,
        payload@.len() > 0 ==> (r@.len() - 2) * max_frag < payload@.len() <= (r@.len() - 1)
            * max_frag,
{
    let len = payload.len();
    let mut r: Vec<Frame> = Vec::new();
    r.push(Frame::DataHeader { mid, sid, length: len as u64 });
    if len == 0 {
        r.push(Frame::Data { mid, start: 0, data: Vec::new() });
        proof {
            assert(r@[1]@ == (FrameV::Data {
                mid,
                start: 0u64,
                data: payload@.subrange(0, 0),
            }));
        }
        return r;
    }
    let mut off: usize = 0;
    while off < len
        invariant
            max_frag >= 1,
            len == payload@.len(),
            len > 0,
            off <= len,
            r@.len() >= 1,
            off == (r@.len() - 1) * max_frag || (off == len && len <= (r@.len() - 1) * max_frag),
            len > (r@.len() - 2) * max_frag,
            r@[0]@ == (FrameV::DataHeader { mid, sid: sid@, length: payload@.len() as u64 }),
            forall|i: int| 0 <= i < r@.len() ==> (#[trigger] r@[i])@.wf(),
            forall|i: int|
                1 <= i < r@.len() ==> (#[trigger] r@[i])@ == (FrameV::Data {
                    mid,
                    start: ((i - 1) * max_frag) as u64,
                    data: payload@.subrange(
                        (i - 1) * max_frag,
                        if i * max_frag <= payload@.len() {
                            i * max_frag
                        } else {
                            payload@.len() as int
                        },
                    ),
                }),
        decreases len - off,
    {
        let ghost cnt = r@.len() - 1;
        proof {
            assert((cnt + 1) * max_frag == cnt * max_frag + max_frag) by (nonlinear_arith);
            assert(off == cnt * max_frag);
        }
        let end = if len - off >= max_frag {
            off + max_frag
        } else {
            len
        };
        let mut chunk: Vec<u8> = Vec::new();
        let mut j: usize = off;
        while j < end
            invariant
                off <= j <= end,
                end <= len,
                len == payload@.len(),
                chunk@ == payload@.subrange(off as int, j as int),
            decreases end - j,
        {
            proof {
                assert(payload@.subrange(off as int, j as int + 1) =~= payload@.subrange(
                    off as int,
                    j as int,
                ).push(payload@[j as int]));
            }
            chunk.push(payload[j]);
            j = j + 1;
        }
        r.push(Frame::Data { mid, start: off as u64, data: chunk });
        proof {
            let i = cnt + 1;
            assert((i - 1) * max_frag == off);
            assert(r@[r@.len() - 1]@ == (FrameV::Data {
                mid,
                start: ((i - 1) * max_frag) as u64,
                data: payload@.subrange(
                    (i - 1) * max_frag,
                    if i * max_frag <= payload@.len() {
                        i * max_frag
                    } else {
                        payload@.len() as int
                    },
                ),
            }));
        }
        off = end;
    }
    r
}

} // verus!
