//! The channel handshake: protocol-identity checking and the secret
//! registry a connection acceptor keeps for resumption.

use vstd::prelude::*;
use crate::types::{Pid, spec_magic_number, spec_network_version};

verus! {

/// The lifecycle states of one channel (one physical connection).
#[derive(PartialEq, Eq, Structural, Clone, Copy, Debug)]
pub enum ChannelState {
    /// Created; nothing sent yet.
    Unestablished,
    /// Our Handshake frame is out; waiting for the peer's.
    AwaitingHandshake,
    /// Handshake verified; waiting for the peer's Init frame.
    AwaitingInit,
    /// Identities exchanged; streams and data flow.
    Established,
    /// Shutdown received or requested; draining, no new streams.
    ShuttingDown,
    /// Torn down, gracefully or not.
    Closed,
}

/// Whether a received magic token and version tuple exactly match the local
/// protocol identity.
pub open spec fn spec_handshake_ok(magic: Seq<u8>, version: Seq<u32>) -> bool {
    magic =~= spec_magic_number() && version =~= spec_network_version()
}

/// Checks a received magic token and version tuple against the local
/// protocol identity.
pub fn handshake_ok(magic: &[u8; 7], version: &[u32; 3]) -> (r: bool)
    ensures
        r == spec_handshake_ok(magic@, version@),
{
    let ok = magic[0] == 86 && magic[1] == 69 && magic[2] == 76 && magic[3] == 79 && magic[4]
        == 82 && magic[5] == 69 && magic[6] == 78 && version[0] == 0 && version[1] == 5
        && version[2] == 0;
    proof {
        if ok {
            assert(magic@ =~= spec_magic_number());
            assert(version@ =~= spec_network_version());
        }
    }
    ok
}

/// A magic token differing from the expected one in any single byte is
/// rejected, whatever the version says.
pub proof fn lemma_handshake_rejects_wrong_magic(magic: Seq<u8>, version: Seq<u32>, i: int)
    requires
        0 <= i < 7,
        magic[i] != spec_magic_number()[i],
    ensures
        !spec_handshake_ok(magic, version),
{
}

/// A version tuple whose major number differs from the local one is
/// rejected, whatever the magic token says.
pub proof fn lemma_handshake_rejects_wrong_major(magic: Seq<u8>, version: Seq<u32>)
    requires
        version.len() != 3 || version[0] != spec_network_version()[0],
    ensures
        !spec_handshake_ok(magic, version),
{
}

/// The secrets a connection acceptor has recorded, keyed by participant id,
/// for authenticating reconnection attempts. Owned by the acceptor: created
/// at listener startup, dropped at shutdown.
pub struct SecretRegistry {
    entries: Vec<(Pid, u128)>,
}

impl SecretRegistry {
    /// The recorded (participant, secret) pairs.
    pub closed spec fn seq(&self) -> Seq<(Pid, u128)> {
        self.entries@
    }

    /// Participant ids are recorded at most once.
    pub open spec fn wf(&self) -> bool {
        keys_distinct_pid(self.seq())
    }

    /// The secret recorded for `pid`, if any.
    pub open spec fn spec_secret(&self, pid: Pid) -> Option<u128> {
        seq_get_pid(self.seq(), pid)
    }

    /// An empty registry.
    pub fn new() -> (r: Self)
        ensures
            r.wf(),
            forall|p: Pid| r.spec_secret(p) is None,
    {
        let r = SecretRegistry { entries: Vec::new() };
        proof {
            assert forall|p: Pid| r.spec_secret(p) is None by {
                lemma_seq_get_pid_contains(r.seq(), p);
            }
        }
        r
    }

    /// Authenticates `pid` presenting `secret`: on first contact the secret
    /// is recorded and accepted; on later contacts it is accepted exactly if
    /// it equals the recorded one.
    pub fn check_or_record(&mut self, pid: Pid, secret: u128) -> (ok: bool)
        requires
            old(self).wf(),
        ensures
            final(self).wf(),
            ok == (old(self).spec_secret(pid) is None || old(self).spec_secret(pid) == Some(
                secret,
            )),
            final(self).spec_secret(pid) == if old(self).spec_secret(pid) is None {
                Some(secret)
            } else {
                old(self).spec_secret(pid)
            },
            forall|p2: Pid| p2 != pid ==> final(self).spec_secret(p2) == old(self).spec_secret(
                p2,
            ),
    {
        let n = self.entries.len();
        let mut i: usize = 0;
        while i < n
            invariant
                i <= n,
                n == self.seq().len(),
                self.wf(),
                forall|j: int| 0 <= j < i ==> self.seq()[j].0 != pid,
            decreases n - i,
        {
            if self.entries[i].0 == pid {
                proof {
                    lemma_seq_get_pid_at(self.seq(), i as int);
                }
                return self.entries[i].1 == secret;
            }
            i = i + 1;
        }
        proof {
            lemma_seq_get_pid_contains(self.seq(), pid);
            assert forall|a: int, b: int|
                0 <= a < b < self.seq().push((pid, secret)).len() implies self.seq().push(
                (pid, secret),
            )[a].0 != self.seq().push((pid, secret))[b].0 by {
                if b < self.seq().len() {
                    assert(self.seq()[a].0 != self.seq()[b].0);
                } else {
                    assert(self.seq()[a].0 != pid);
                }
            }
            assert forall|p2: Pid|
                seq_get_pid(self.seq().push((pid, secret)), p2) == if p2 == pid {
                    Some(secret)
                } else {
                    seq_get_pid(self.seq(), p2)
                } by {
                lemma_seq_get_pid_push(self.seq(), pid, secret, p2);
            }
        }
        self.entries.push((pid, secret));
        true
    }
}

/// Whether the participant ids of `s` are pairwise distinct.
pub open spec fn keys_distinct_pid(s: Seq<(Pid, u128)>) -> bool {
    forall|i: int, j: int| 0 <= i < j < s.len() ==> s[i].0 != s[j].0
}

/// The secret under `pid` in `s`: the first entry with that id.
pub open spec fn seq_get_pid(s: Seq<(Pid, u128)>, pid: Pid) -> Option<u128>
    decreases s.len(),
{
    if s.len() == 0 {
        None
    } else if s[0].0 == pid {
        Some(s[0].1)
    } else {
        seq_get_pid(s.drop_first(), pid)
    }
}

proof fn lemma_seq_get_pid_contains(s: Seq<(Pid, u128)>, pid: Pid)
    ensures
        seq_get_pid(s, pid) is Some <==> exists|i: int| 0 <= i < s.len() && s[i].0 == pid,
    decreases s.len(),
{
    if s.len() > 0 {
        lemma_seq_get_pid_contains(s.drop_first(), pid);
        if s[0].0 != pid {
            if seq_get_pid(s, pid) is Some {
                let i = choose|i: int|
                    0 <= i < s.drop_first().len() && s.drop_first()[i].0 == pid;
                assert(s[i + 1].0 == pid);
            }
            if exists|i: int| 0 <= i < s.len() && s[i].0 == pid {
                let i = choose|i: int| 0 <= i < s.len() && s[i].0 == pid;
                assert(s.drop_first()[i - 1].0 == pid);
            }
        }
    }
}

proof fn lemma_seq_get_pid_at(s: Seq<(Pid, u128)>, i: int)
    requires
        keys_distinct_pid(s),
        0 <= i < s.len(),
    ensures
        seq_get_pid(s, s[i].0) == Some(s[i].1),
    decreases s.len(),
{
    if i > 0 {
        assert(keys_distinct_pid(s.drop_first())) by {
            assert forall|a: int, b: int|
                0 <= a < b < s.drop_first().len() implies s.drop_first()[a].0
                != s.drop_first()[b].0 by {
                assert(s.drop_first()[a] == s[a + 1] && s.drop_first()[b] == s[b + 1]);
            }
        }
        lemma_seq_get_pid_at(s.drop_first(), i - 1);
        assert(s.drop_first()[i - 1] == s[i]);
    }
}

proof fn lemma_seq_get_pid_push(s: Seq<(Pid, u128)>, pid: Pid, secret: u128, p2: Pid)
    ensures
        seq_get_pid(s.push((pid, secret)), p2) == if seq_get_pid(s, p2) is Some {
            seq_get_pid(s, p2)
        } else if p2 == pid {
            Some(secret)
        } else {
            None::<u128>
        },
    decreases s.len(),
{
    if s.len() == 0 {
        assert(s.push((pid, secret)).drop_first() =~= Seq::<(Pid, u128)>::empty());
    } else {
        assert(s.push((pid, secret)).drop_first() =~= s.drop_first().push((pid, secret)));
        lemma_seq_get_pid_push(s.drop_first(), pid, secret, p2);
    }
}

} // verus!
