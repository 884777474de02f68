//! One channel: the handshake state machine that authenticates a physical
//! connection, and the routing of established-state frames into the
//! multiplexer. Also the participant, which owns its channels.

use vstd::prelude::*;
use crate::error::ProtocolError;
use crate::frame::{Frame, FrameV};
use crate::handshake::{handshake_ok, spec_handshake_ok, ChannelState, SecretRegistry};
use crate::multiplex::{
    close_outcome, data_outcome, header_outcome, open_outcome, Message, Multiplexer,
};
use crate::types::{magic_number, network_version, random_u128, spec_magic_number,
    spec_network_version, Pid};

verus! {

/// One physical connection between two participants, from this side's
/// point of view: its lifecycle state, this side's identity, and the
/// multiplexer for the streams it carries.
///
/// The handshake runs through `connect`, `handle_handshake` and
/// `handle_init`; once the channel is established, inbound frames go
/// through `handle_frame`.
pub struct Channel {
    state: ChannelState,
    initiator: bool,
    local_pid: Pid,
    local_secret: u128,
    remote_pid: Option<Pid>,
    mux: Multiplexer,
}

impl Channel {
    /// The channel's lifecycle state.
    pub closed spec fn spec_state(&self) -> ChannelState {
        self.state
    }

    /// Whether this side initiated the connection (the other side is then
    /// the responder, which checks secrets).
    pub closed spec fn spec_initiator(&self) -> bool {
        self.initiator
    }

    /// This side's participant id.
    pub closed spec fn spec_local_pid(&self) -> Pid {
        self.local_pid
    }

    /// This side's resumption secret.
    pub closed spec fn spec_local_secret(&self) -> u128 {
        self.local_secret
    }

    /// The peer's participant id, once an Init frame carried it.
    pub closed spec fn spec_remote_pid(&self) -> Option<Pid> {
        self.remote_pid
    }

    /// The channel's stream multiplexer.
    pub closed spec fn spec_mux(&self) -> Multiplexer {
        self.mux
    }

    /// The multiplexer keeps its invariant.
    pub open spec fn inv(&self) -> bool {
        self.spec_mux().inv()
    }

    /// The identity fields never change over a channel's life.
    pub open spec fn same_identity(&self, other: &Channel) -> bool {
        self.spec_initiator() == other.spec_initiator() && self.spec_local_pid()
            == other.spec_local_pid() && self.spec_local_secret() == other.spec_local_secret()
    }

    /// A fresh channel for a new physical connection, with a random
    /// resumption secret. Nothing has been sent yet.
    pub fn new(local_pid: Pid, initiator: bool) -> (r: Channel)
        ensures
            r.inv(),
            r.spec_state() == ChannelState::Unestablished,
            r.spec_initiator() == initiator,
            r.spec_local_pid() == local_pid,
            r.spec_remote_pid() is None,
            forall|sid: u64| r.spec_mux().spec_stream(sid) is None,
            forall|mid: u64| r.spec_mux().spec_pending(mid) is None,
            forall|mid: u64| r.spec_mux().spec_completed(mid) is None,
    {
        Channel {
            state: ChannelState::Unestablished,
            initiator,
            local_pid,
            local_secret: random_u128(),
            remote_pid: None,
            mux: Multiplexer::new(),
        }
    }

    /// The channel's lifecycle state.
    pub fn state(&self) -> (r: ChannelState)
        ensures
            r == self.spec_state(),
    {
        self.state
    }

    /// The peer's participant id, once known.
    pub fn remote_pid(&self) -> (r: Option<Pid>)
        ensures
            r == self.spec_remote_pid(),
    {
        self.remote_pid
    }

    /// Starts the handshake: returns the Handshake frame to send (magic
    /// token and local version) and begins waiting for the peer's. Fails
    /// with a protocol violation if the channel already moved on.
    pub fn connect(&mut self) -> (r: Result<Frame, ProtocolError>)
        requires
            old(self).inv(),
        ensures
            final(self).inv(),
            final(self).same_identity(old(self)),
            final(self).spec_mux() == old(self).spec_mux(),
            final(self).spec_remote_pid() == old(self).spec_remote_pid(),
            match r {
                Ok(f) => old(self).spec_state() == ChannelState::Unestablished && final(self).spec_state() == ChannelState::AwaitingHandshake && f@ == (FrameV::Handshake {
                    magic_number: spec_magic_number(),
                    version: spec_network_version(),
                }),
                Err(e) => e == ProtocolError::ProtocolViolation && old(self).spec_state()
                    != ChannelState::Unestablished && final(self).spec_state() == old(self).spec_state(),
            },
    {
        if self.state != ChannelState::Unestablished {
            return Err(ProtocolError::ProtocolViolation);
        }
        self.state = ChannelState::AwaitingHandshake;
        Ok(Frame::Handshake { magic_number: magic_number(), version: network_version() })
    }

    /// Handles the peer's Handshake frame. On an exact match of magic token
    /// and version the channel starts waiting for Init and returns the Init
    /// frame to send; on a mismatch it closes with ProtocolMismatch,
    /// sending nothing further. A Handshake in any other state is a
    /// protocol violation and changes nothing.
    pub fn handle_handshake(&mut self, magic_number: [u8; 7], version: [u32; 3]) -> (r: Result<
        Frame,
        ProtocolError,
    >)
        requires
            old(self).inv(),
        ensures
            final(self).inv(),
            final(self).same_identity(old(self)),
            final(self).spec_mux() == old(self).spec_mux(),
            final(self).spec_remote_pid() == old(self).spec_remote_pid(),
            if old(self).spec_state() == ChannelState::AwaitingHandshake {
                if spec_handshake_ok(magic_number@, version@) {
                    final(self).spec_state() == ChannelState::AwaitingInit && (r matches Ok(f)
                        && f@ == (FrameV::Init {
                        pid: old(self).spec_local_pid()@,
                        secret: old(self).spec_local_secret(),
                    }))
                } else {
                    final(self).spec_state() == ChannelState::Closed && r == Err::<
                        Frame,
                        ProtocolError,
                    >(ProtocolError::ProtocolMismatch)
                }
            } else {
                final(self).spec_state() == old(self).spec_state() && r == Err::<
                    Frame,
                    ProtocolError,
                >(ProtocolError::ProtocolViolation)
            },
    {
        if self.state != ChannelState::AwaitingHandshake {
            return Err(ProtocolError::ProtocolViolation);
        }
        if handshake_ok(&magic_number, &version) {
            self.state = ChannelState::AwaitingInit;
            Ok(Frame::Init { pid: self.local_pid, secret: self.local_secret })
        } else {
            self.state = ChannelState::Closed;
            Err(ProtocolError::ProtocolMismatch)
        }
    }

    /// Handles the peer's Init frame. The responder side authenticates the
    /// presented secret against the acceptor's registry — recording it on
    /// first contact — and closes with AuthenticationFailure on a
    /// mismatch; the initiator side records the peer's identity as given.
    /// On success the channel is established. An Init in any other state
    /// is a protocol violation and changes nothing.
    pub fn handle_init(&mut self, pid: Pid, secret: u128, registry: &mut SecretRegistry) -> (r:
        Result<(), ProtocolError>)
        requires
            old(self).inv(),
            old(registry).wf(),
        ensures
            final(self).inv(),
            final(registry).wf(),
            final(self).same_identity(old(self)),
            final(self).spec_mux() == old(self).spec_mux(),
            if old(self).spec_state() == ChannelState::AwaitingInit {
                if old(self).spec_initiator() {
                    final(self).spec_state() == ChannelState::Established && final(self).spec_remote_pid() == Some(pid) && r == Ok::<(), ProtocolError>(())
                        && *final(registry) == *old(registry)
                } else {
                    let known = old(registry).spec_secret(pid);
                    let ok = known is None || known == Some(secret);
                    &&& final(registry).spec_secret(pid) == if known is None {
                        Some(secret)
                    } else {
                        known
                    }
                    &&& forall|p2: Pid|
                        p2 != pid ==> final(registry).spec_secret(p2) == old(registry).spec_secret(p2)
                    &&& if ok {
                        final(self).spec_state() == ChannelState::Established && final(self).spec_remote_pid() == Some(pid) && r == Ok::<(), ProtocolError>(())
                    } else {
                        final(self).spec_state() == ChannelState::Closed && r == Err::<
                            (),
                            ProtocolError,
                        >(ProtocolError::AuthenticationFailure)
                    }
                }
            } else {
                final(self).spec_state() == old(self).spec_state() && final(self).spec_remote_pid() == old(self).spec_remote_pid() && r == Err::<
                    (),
                    ProtocolError,
                >(ProtocolError::ProtocolViolation) && *final(registry) == *old(registry)
            },
    {
        if self.state != ChannelState::AwaitingInit {
            return Err(ProtocolError::ProtocolViolation);
        }
        if self.initiator {
            self.remote_pid = Some(pid);
            self.state = ChannelState::Established;
            Ok(())
        } else {
            if registry.check_or_record(pid, secret) {
                self.remote_pid = Some(pid);
                self.state = ChannelState::Established;
                Ok(())
            } else {
                self.state = ChannelState::Closed;
                Err(ProtocolError::AuthenticationFailure)
            }
        }
    }

    /// Routes one frame received while the channel is up. Streams and data
    /// flow while Established; during ShuttingDown data may still drain but
    /// no new stream opens. A Handshake or Init here, or any frame on a
    /// channel that is not up, is a protocol violation that leaves the
    /// channel as it was — the channel survives. Raw frames are the
    /// debug-only escape hatch and are not routed to the streams.
    pub fn handle_frame(&mut self, frame: Frame) -> (r: Result<Vec<Message>, ProtocolError>)
        requires
            old(self).inv(),
        ensures
            final(self).inv(),
            final(self).same_identity(old(self)),
            final(self).spec_remote_pid() == old(self).spec_remote_pid(),
            ({
                let st0 = old(self).spec_state();
                let up = st0 == ChannelState::Established || st0 == ChannelState::ShuttingDown;
                if !up {
                    final(self).spec_state() == st0 && final(self).spec_mux() == old(self).spec_mux() && r == Err::<Vec<Message>, ProtocolError>(
                        ProtocolError::ProtocolViolation,
                    )
                } else {
                    match frame@ {
                        FrameV::Handshake { .. } => final(self).spec_state() == st0 && final(self).spec_mux() == old(self).spec_mux() && r == Err::<
                            Vec<Message>,
                            ProtocolError,
                        >(ProtocolError::ProtocolViolation),
                        FrameV::Init { .. } => final(self).spec_state() == st0 && final(self).spec_mux() == old(self).spec_mux() && r == Err::<
                            Vec<Message>,
                            ProtocolError,
                        >(ProtocolError::ProtocolViolation),
                        FrameV::Shutdown => if st0 == ChannelState::Established {
                            final(self).spec_state() == ChannelState::ShuttingDown && final(self).spec_mux() == old(self).spec_mux() && (r matches Ok(msgs)
                                && msgs@.len() == 0)
                        } else {
                            final(self).spec_state() == st0 && final(self).spec_mux() == old(self).spec_mux() && r == Err::<Vec<Message>, ProtocolError>(
                                ProtocolError::ProtocolViolation,
                            )
                        },
                        FrameV::OpenStream { sid, prio, promises } => {
                            final(self).spec_state() == st0 && if st0
                                == ChannelState::Established {
                                match r {
                                    Ok(msgs) => msgs@.len() == 0 && open_outcome(
                                        old(self).spec_mux(),
                                        final(self).spec_mux(),
                                        sid,
                                        prio,
                                        crate::promises::spec_from_bits(promises),
                                        Ok(()),
                                    ),
                                    Err(e) => open_outcome(
                                        old(self).spec_mux(),
                                        final(self).spec_mux(),
                                        sid,
                                        prio,
                                        crate::promises::spec_from_bits(promises),
                                        Err(e),
                                    ),
                                }
                            } else {
                                final(self).spec_mux() == old(self).spec_mux() && r == Err::<
                                    Vec<Message>,
                                    ProtocolError,
                                >(ProtocolError::ProtocolViolation)
                            }
                        },
                        FrameV::CloseStream { sid } => final(self).spec_state() == st0 && (match r {
                            Ok(msgs) => msgs@.len() == 0 && close_outcome(
                                old(self).spec_mux(),
                                final(self).spec_mux(),
                                sid,
                                Ok(()),
                            ),
                            Err(e) => close_outcome(
                                old(self).spec_mux(),
                                final(self).spec_mux(),
                                sid,
                                Err(e),
                            ),
                        }),
                        FrameV::DataHeader { mid, sid, length } => final(self).spec_state() == st0
                            && (match r {
                            Ok(msgs) => msgs@.len() == 0 && header_outcome(
                                old(self).spec_mux(),
                                final(self).spec_mux(),
                                mid,
                                sid,
                                length,
                                Ok(()),
                            ),
                            Err(e) => header_outcome(
                                old(self).spec_mux(),
                                final(self).spec_mux(),
                                mid,
                                sid,
                                length,
                                Err(e),
                            ),
                        }),
                        FrameV::Data { mid, start, data } => final(self).spec_state() == st0
                            && data_outcome(
                            old(self).spec_mux(),
                            final(self).spec_mux(),
                            mid,
                            start,
                            data,
                            r,
                        ),
                        FrameV::Raw { .. } => final(self).spec_state() == st0 && final(self).spec_mux() == old(self).spec_mux() && (r matches Ok(msgs) && msgs@.len()
                            == 0),
                    }
                }
            }),
    {
        let up = self.state == ChannelState::Established || self.state
            == ChannelState::ShuttingDown;
        if !up {
            return Err(ProtocolError::ProtocolViolation);
        }
        match frame {
            Frame::Handshake { .. } => Err(ProtocolError::ProtocolViolation),
            Frame::Init { .. } => Err(ProtocolError::ProtocolViolation),
            Frame::Shutdown => {
                if self.state == ChannelState::Established {
                    self.state = ChannelState::ShuttingDown;
                    Ok(Vec::new())
                } else {
                    Err(ProtocolError::ProtocolViolation)
                }
            },
            Frame::OpenStream { sid, prio, promises } => {
                if self.state != ChannelState::Established {
                    return Err(ProtocolError::ProtocolViolation);
                }
                proof {
                    crate::promises::lemma_promises_from_view(promises);
                }
                match self.mux.open_stream(sid.value(), prio, promises) {
                    Ok(()) => Ok(Vec::new()),
                    Err(e) => Err(e),
                }
            },
            Frame::CloseStream { sid } => {
                match self.mux.close_stream(sid.value()) {
                    Ok(()) => Ok(Vec::new()),
                    Err(e) => Err(e),
                }
            },
            Frame::DataHeader { mid, sid, length } => {
                match self.mux.handle_data_header(mid, sid.value(), length) {
                    Ok(()) => Ok(Vec::new()),
                    Err(e) => Err(e),
                }
            },
            Frame::Data { mid, start, data } => self.mux.handle_data(mid, start, &data),
            Frame::Raw(_) => Ok(Vec::new()),
        }
    }

    /// Asks for graceful shutdown from this side: while Established the
    /// channel stops taking new streams and returns the Shutdown frame to
    /// send; otherwise a protocol violation, changing nothing.
    pub fn shutdown(&mut self) -> (r: Result<Frame, ProtocolError>)
        requires
            old(self).inv(),
        ensures
            final(self).inv(),
            final(self).same_identity(old(self)),
            final(self).spec_mux() == old(self).spec_mux(),
            final(self).spec_remote_pid() == old(self).spec_remote_pid(),
            if old(self).spec_state() == ChannelState::Established {
                final(self).spec_state() == ChannelState::ShuttingDown && (r matches Ok(f) && f@
                    == FrameV::Shutdown)
            } else {
                final(self).spec_state() == old(self).spec_state() && r == Err::<
                    Frame,
                    ProtocolError,
                >(ProtocolError::ProtocolViolation)
            },
    {
        if self.state != ChannelState::Established {
            return Err(ProtocolError::ProtocolViolation);
        }
        self.state = ChannelState::ShuttingDown;
        Ok(Frame::Shutdown)
    }

    /// Completes a graceful shutdown once nothing promised under
    /// GUARANTEED_DELIVERY is still in flight; until then, or in any other
    /// state, a protocol violation that changes nothing.
    pub fn finish_shutdown(&mut self) -> (r: Result<(), ProtocolError>)
        requires
            old(self).inv(),
        ensures
            final(self).inv(),
            final(self).same_identity(old(self)),
            final(self).spec_mux() == old(self).spec_mux(),
            final(self).spec_remote_pid() == old(self).spec_remote_pid(),
            if old(self).spec_state() == ChannelState::ShuttingDown && !(exists|i: int|
                0 <= i < old(self).spec_mux().spec_pending_seq().len() && (match old(self).spec_mux().spec_stream(
                    #[trigger] old(self).spec_mux().spec_pending_seq()[i].1.sid,
                ) {
                    Some(st) => crate::promises::spec_contains(
                        st.promises@,
                        crate::promises::GUARANTEED_DELIVERY,
                    ),
                    None => false,
                })) {
                final(self).spec_state() == ChannelState::Closed && r == Ok::<
                    (),
                    ProtocolError,
                >(())
            } else {
                final(self).spec_state() == old(self).spec_state() && r == Err::<
                    (),
                    ProtocolError,
                >(ProtocolError::ProtocolViolation)
            },
    {
        if self.state != ChannelState::ShuttingDown {
            return Err(ProtocolError::ProtocolViolation);
        }
        if self.mux.has_guaranteed_pending() {
            return Err(ProtocolError::ProtocolViolation);
        }
        self.state = ChannelState::Closed;
        Ok(())
    }

    /// Reacts to a failure of the underlying transport: the channel is
    /// closed from whatever state it was in, and the channel-lost event is
    /// surfaced exactly once — only the call that closed the channel
    /// returns it. Safe to repeat.
    pub fn on_transport_failure(&mut self) -> (r: Option<ProtocolError>)
        requires
            old(self).inv(),
        ensures
            final(self).inv(),
            final(self).same_identity(old(self)),
            final(self).spec_mux() == old(self).spec_mux(),
            final(self).spec_remote_pid() == old(self).spec_remote_pid(),
            final(self).spec_state() == ChannelState::Closed,
            r == if old(self).spec_state() != ChannelState::Closed {
                Some(ProtocolError::ChannelLost)
            } else {
                None::<ProtocolError>
            },
    {
        let surfaced = self.state != ChannelState::Closed;
        self.state = ChannelState::Closed;
        if surfaced {
            Some(ProtocolError::ChannelLost)
        } else {
            None
        }
    }
}

/// Whether `x` occurs among the first `i` entries of `s`.
pub open spec fn in_prefix(s: Seq<u64>, i: int, x: u64) -> bool {
    exists|j: int| 0 <= j < i && j < s.len() && s[j] == x
}

/// One endpoint's identity for a communication session, owning the
/// channels that carry it. The participant is torn down when its last
/// channel is gone.
pub struct Participant {
    pid: Pid,
    channels: Vec<u64>,
}

impl Participant {
    /// The channel ids currently owned.
    pub closed spec fn spec_channels(&self) -> Seq<u64> {
        self.channels@
    }

    /// The participant's id.
    pub closed spec fn spec_pid(&self) -> Pid {
        self.pid
    }

    /// Channel ids are owned at most once.
    pub open spec fn wf(&self) -> bool {
        forall|i: int, j: int|
            0 <= i < j < self.spec_channels().len() ==> self.spec_channels()[i]
                != self.spec_channels()[j]
    }

    /// A participant with the given id and no channels yet.
    pub fn new(pid: Pid) -> (r: Participant)
        ensures
            r.wf(),
            r.spec_pid() == pid,
            r.spec_channels().len() == 0,
    {
        Participant { pid, channels: Vec::new() }
    }

    /// The participant's id.
    pub fn pid(&self) -> (r: Pid)
        ensures
            r == self.spec_pid(),
    {
        self.pid
    }

    /// How many channels the participant owns.
    pub fn channel_count(&self) -> (r: usize)
        ensures
            r == self.spec_channels().len(),
    {
        self.channels.len()
    }

    /// Adopts channel `cid`. Fails with a protocol violation exactly when
    /// the id is already owned.
    pub fn add_channel(&mut self, cid: u64) -> (r: Result<(), ProtocolError>)
        requires
            old(self).wf(),
        ensures
            final(self).wf(),
            final(self).spec_pid() == old(self).spec_pid(),
            match r {
                Ok(()) => final(self).spec_channels() == old(self).spec_channels().push(cid) && (
                forall|i: int|
                    0 <= i < old(self).spec_channels().len() ==> old(self).spec_channels()[i]
                        != cid),
                Err(e) => e == ProtocolError::ProtocolViolation && *final(self) == *old(self) && (
                exists|i: int|
                    0 <= i < old(self).spec_channels().len() && old(self).spec_channels()[i]
                        == cid),
            },
    {
        let n = self.channels.len();
        let mut i: usize = 0;
        while i < n
            invariant
                i <= n,
                *self == *old(self),
                self.wf(),
                n == self.spec_channels().len(),
                forall|j: int| 0 <= j < i ==> self.spec_channels()[j] != cid,
            decreases n - i,
        {
            if self.channels[i] == cid {
                return Err(ProtocolError::ProtocolViolation);
            }
            i = i + 1;
        }
        proof {
            assert forall|a: int, b: int|
                0 <= a < b < self.spec_channels().push(cid).len() implies self.spec_channels(
                ).push(cid)[a] != self.spec_channels().push(cid)[b] by {
                if b < self.spec_channels().len() {
                    assert(self.spec_channels()[a] != self.spec_channels()[b]);
                } else {
                    assert(self.spec_channels()[a] != cid);
                }
            }
        }
        self.channels.push(cid);
        Ok(())
    }

    /// Lets go of channel `cid` — closed gracefully or lost — and reports
    /// whether that was the last one, in which case the participant itself
    /// is to be torn down. Dropping an unknown id changes nothing.
    pub fn channel_gone(&mut self, cid: u64) -> (last: bool)
        requires
            old(self).wf(),
        ensures
            final(self).wf(),
            final(self).spec_pid() == old(self).spec_pid(),
            forall|c: u64|
                c != cid ==> (final(self).spec_channels().contains(c) == old(self).spec_channels().contains(c)),
            !final(self).spec_channels().contains(cid),
            last == (final(self).spec_channels().len() == 0),
    {
        let n = self.channels.len();
        let mut i: usize = 0;
        let mut kept: Vec<u64> = Vec::new();
        while i < n
            invariant
                i <= n,
                n == old(self).spec_channels().len(),
                self.channels@ == old(self).spec_channels(),
                old(self).wf(),
                forall|j: int|
                    0 <= j < kept@.len() ==> kept@[j] != cid && in_prefix(
                        old(self).spec_channels(),
                        i as int,
                        #[trigger] kept@[j],
                    ),
                forall|j: int|
                    0 <= j < i && old(self).spec_channels()[j] != cid ==> kept@.contains(
                        #[trigger] old(self).spec_channels()[j],
                    ),
                forall|a: int, b: int| 0 <= a < b < kept@.len() ==> kept@[a] != kept@[b],
            decreases n - i,
        {
            let c = self.channels[i];
            if c != cid {
                proof {
                    if exists|a: int| 0 <= a < kept@.len() && kept@[a] == c {
                        let a = choose|a: int| 0 <= a < kept@.len() && kept@[a] == c;
                        assert(in_prefix(old(self).spec_channels(), i as int, kept@[a]));
                        let j0 = choose|j0: int|
                            0 <= j0 < i && old(self).spec_channels()[j0] == kept@[a];
                        assert(old(self).spec_channels()[j0] == old(self).spec_channels()[
                            i as int]);
                        assert(false);
                    }
                    assert forall|j: int| 0 <= j < kept@.push(c).len() implies kept@.push(c)[j]
                        != cid && in_prefix(
                        old(self).spec_channels(),
                        i as int + 1,
                        #[trigger] kept@.push(c)[j],
                    ) by {
                        if j < kept@.len() {
                            assert(in_prefix(old(self).spec_channels(), i as int, kept@[j]));
                            let j0 = choose|j0: int|
                                0 <= j0 < i && old(self).spec_channels()[j0] == kept@[j];
                            assert(0 <= j0 < i + 1 && old(self).spec_channels()[j0] == kept@.push(
                                c,
                            )[j]);
                        } else {
                            assert(old(self).spec_channels()[i as int] == c);
                        }
                    }
                    assert forall|j: int|
                        0 <= j < i + 1 && old(self).spec_channels()[j] != cid implies kept@.push(
                        c,
                    ).contains(#[trigger] old(self).spec_channels()[j]) by {
                        if j < i {
                            assert(kept@.contains(old(self).spec_channels()[j]));
                            let a = choose|a: int|
                                0 <= a < kept@.len() && kept@[a] == old(self).spec_channels()[j];
                            assert(kept@.push(c)[a] == old(self).spec_channels()[j]);
                        } else {
                            assert(kept@.push(c)[kept@.len() as int] == c);
                        }
                    }
                }
                kept.push(c);
            } else {
                proof {
                    assert forall|j: int| 0 <= j < kept@.len() implies kept@[j] != cid
                        && in_prefix(
                        old(self).spec_channels(),
                        i as int + 1,
                        #[trigger] kept@[j],
                    ) by {
                        assert(in_prefix(old(self).spec_channels(), i as int, kept@[j]));
                        let j0 = choose|j0: int|
                            0 <= j0 < i && old(self).spec_channels()[j0] == kept@[j];
                        assert(0 <= j0 < i + 1 && old(self).spec_channels()[j0] == kept@[j]);
                    }
                }
            }
            i = i + 1;
        }
        let last = kept.len() == 0;
        proof {
            assert forall|c: u64|
                c != cid implies (kept@.contains(c) == old(self).spec_channels().contains(c)) by {
                if kept@.contains(c) {
                    let a = choose|a: int| 0 <= a < kept@.len() && kept@[a] == c;
                    assert(in_prefix(old(self).spec_channels(), n as int, kept@[a]));
                    let j0 = choose|j0: int|
                        0 <= j0 < n && old(self).spec_channels()[j0] == kept@[a];
                    assert(old(self).spec_channels().contains(c));
                }
                if old(self).spec_channels().contains(c) {
                    let j = choose|j: int|
                        0 <= j < old(self).spec_channels().len() && old(self).spec_channels()[j]
                            == c;
                    assert(kept@.contains(old(self).spec_channels()[j]));
                }
            }
            assert(!kept@.contains(cid)) by {
                if kept@.contains(cid) {
                    let a = choose|a: int| 0 <= a < kept@.len() && kept@[a] == cid;
                }
            }
        }
        self.channels = kept;
        last
    }
}

} // verus!
