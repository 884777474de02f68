//! Identity types of the protocol: participants, streams, and the fixed
//! protocol identity (magic token and version) exchanged at handshake time.

use vstd::prelude::*;
use crate::wire::{le_bytes, le_val, lemma_pow256_values, read_le, write_le};

verus! {

/// First stream id of the half of the id space owned by the connection
/// initiator.
pub const STREAM_ID_OFFSET1: u64 = 0;

/// First stream id of the half of the id space owned by the responder: the
/// midpoint of the 64-bit id space, so each peer owns 2^63 ids.
pub const STREAM_ID_OFFSET2: u64 = 0x8000_0000_0000_0000;

/// The magic token bytes, as a specification-level sequence.
pub open spec fn spec_magic_number() -> Seq<u8> {
    seq![86u8, 69u8, 76u8, 79u8, 82u8, 69u8, 78u8]
}

/// The local protocol version as a specification-level sequence
/// (major, minor, patch).
pub open spec fn spec_network_version() -> Seq<u32> {
    seq![0u32, 5u32, 0u32]
}

/// The 7-byte magic token identifying the protocol family.
pub fn magic_number() -> (r: [u8; 7])
    ensures
        r@ == spec_magic_number(),
{
    let r: [u8; 7] = [86, 69, 76, 79, 82, 69, 78];
    proof {
        assert(r@ =~= spec_magic_number());
    }
    r
}

/// The local protocol version tuple (major, minor, patch).
pub fn network_version() -> (r: [u32; 3])
    ensures
        r@ == spec_network_version(),
{
    let r: [u32; 3] = [0, 5, 0];
    proof {
        assert(r@ =~= spec_network_version());
    }
    r
}

/// Identifies one participant (one endpoint of communication) for the
/// lifetime of a session.
#[derive(PartialEq, Eq, Structural, Hash, Clone, Copy, Debug)]
pub struct Pid {
    internal: u128,
}

/// Identifies one logical stream multiplexed over a channel.
#[derive(PartialEq, Eq, Structural, Hash, Clone, Copy, Debug)]
pub struct Sid {
    internal: u64,
}

impl View for Pid {
    type V = u128;

    closed spec fn view(&self) -> u128 {
        self.internal
    }
}

impl View for Sid {
    type V = u64;

    closed spec fn view(&self) -> u64 {
        self.internal
    }
}

/// Relies on rand::random: draws a uniformly random value from the thread's
/// generator. Nothing is assumed of the value returned.
#[verifier::external_body]
pub(crate) fn random_u128() -> u128 {
    rand::random::<u128>()
}

/// Relies on String::push: appends exactly the given character.
#[verifier::external_body]
pub(crate) fn push_char(s: &mut String, c: char)
    ensures
        final(s)@ == old(s)@.push(c),
{
    s.push(c);
}

/// The base-64-style character standing for one 6-bit group of a participant
/// id in its rendered digest.
pub open spec fn spec_sixlet_char(sixlet: u128) -> char {
    if sixlet < 26 {
        (65 + sixlet) as char
    } else if sixlet < 52 {
        (97 + (sixlet - 26)) as char
    } else if sixlet < 62 {
        (48 + (sixlet - 52)) as char
    } else if sixlet == 62 {
        '+'
    } else {
        '/'
    }
}

/// Maps a 6-bit value to its digest character: `A`-`Z`, then `a`-`z`, then
/// `0`-`9`, then `+` and `/`.
pub fn sixlet_to_str(sixlet: u128) -> (r: char)
    requires
        sixlet < 64,
    ensures
        r == spec_sixlet_char(sixlet),
{
    let b: u8 = if sixlet < 26 {
        65 + (sixlet as u8)
    } else if sixlet < 52 {
        97 + ((sixlet - 26) as u8)
    } else if sixlet < 62 {
        48 + ((sixlet - 52) as u8)
    } else if sixlet == 62 {
        43
    } else {
        47
    };
    b as char
}

/// The 6-character digest of a participant id: its 36 low-order bits rendered
/// 6 bits per character, low group first.
pub open spec fn spec_pid_digest(p: u128) -> Seq<char> {
    Seq::new(6, |i: int| spec_sixlet_char((p >> ((6 * i) as u128)) & 0x3f))
}

impl Pid {
    /// Creates a new participant id with a random value.
    pub fn new() -> Self {
        Pid { internal: random_u128() }
    }

    /// Deterministic participant id for test fixtures, bounded to a small
    /// enumerable range; its digest is one character repeated six times.
    pub fn fake(pid_offset: u8) -> (r: Self)
        requires
            pid_offset < 8,
        ensures
            r@ == pid_offset * 0x41041041u128,
    {
        let o = pid_offset as u128;
        Pid {
            internal: o + o * 0x40 + o * 0x1000 + o * 0x40000 + o * 0x1000000 + o * 0x40000000,
        }
    }

    /// The 16-byte little-endian encoding of this id.
    pub fn to_le_bytes(&self) -> (r: [u8; 16])
        ensures
            r@ == le_bytes(self@ as int, 16),
            le_val(r@) == self@,
    {
        proof {
            lemma_pow256_values();
        }
        let mut out: Vec<u8> = Vec::new();
        write_le(&mut out, self.internal, 16);
        proof {
            crate::wire::lemma_le_bytes_len(self.internal as int, 16);
        }
        let r: [u8; 16] = [
            out[0], out[1], out[2], out[3], out[4], out[5], out[6], out[7],
            out[8], out[9], out[10], out[11], out[12], out[13], out[14], out[15],
        ];
        proof {
            crate::wire::lemma_le_bytes_len(self.internal as int, 16);
            assert(r@ =~= le_bytes(self.internal as int, 16));
            crate::wire::lemma_le_val_of_le_bytes(self.internal as int, 16);
        }
        r
    }

    /// Reads a participant id back from its 16-byte little-endian encoding.
    pub fn from_le_bytes(bytes: [u8; 16]) -> (r: Self)
        ensures
            r@ == le_val(bytes@),
    {
        proof {
            crate::wire::lemma_le_val_bound(bytes@);
            lemma_pow256_values();
        }
        let v = read_le(bytes.as_slice(), 0, 16);
        proof {
            assert(bytes@.subrange(0, 16) =~= bytes@);
        }
        Pid { internal: v }
    }

    /// Renders the id for logs as its fixed 6-character digest; not a
    /// reversible encoding.
    pub fn to_string(&self) -> (r: String)
        ensures
            r@ == spec_pid_digest(self@),
    {
        let mut s = String::new();
        let mut i: usize = 0;
        while i < 6
            invariant
                i <= 6,
                s@ =~= spec_pid_digest(self.internal).take(i as int),
            decreases 6 - i,
        {
            let sh: u128 = (i as u128) * 6;
            proof {
                let p = self.internal;
                assert((p >> sh) & 0x3f < 64) by (bit_vector);
                assert(sh == (6 * (i as int)) as u128);
            }
            let c = sixlet_to_str((self.internal >> sh) & 0x3f);
            push_char(&mut s, c);
            proof {
                assert(s@ =~= spec_pid_digest(self.internal).take(i as int + 1));
            }
            i = i + 1;
        }
        proof {
            assert(spec_pid_digest(self.internal).take(6) =~= spec_pid_digest(self.internal));
        }
        s
    }
}

impl Sid {
    /// Wraps a raw 64-bit stream id.
    pub fn new(internal: u64) -> (r: Self)
        ensures
            r@ == internal,
    {
        Sid { internal }
    }

    /// The raw 64-bit value of this stream id.
    pub fn value(&self) -> (r: u64)
        ensures
            r == self@,
    {
        self.internal
    }

    /// The 8-byte little-endian encoding of this id.
    pub fn to_le_bytes(&self) -> (r: [u8; 8])
        ensures
            r@ == le_bytes(self@ as int, 8),
            le_val(r@) == self@,
    {
        proof {
            lemma_pow256_values();
        }
        let mut out: Vec<u8> = Vec::new();
        write_le(&mut out, self.internal as u128, 8);
        proof {
            crate::wire::lemma_le_bytes_len(self.internal as int, 8);
        }
        let r: [u8; 8] = [out[0], out[1], out[2], out[3], out[4], out[5], out[6], out[7]];
        proof {
            crate::wire::lemma_le_bytes_len(self.internal as int, 8);
            assert(r@ =~= le_bytes(self.internal as int, 8));
            crate::wire::lemma_le_val_of_le_bytes(self.internal as int, 8);
        }
        r
    }

    /// Reads a stream id back from its 8-byte little-endian encoding.
    pub fn from_le_bytes(bytes: [u8; 8]) -> (r: Self)
        ensures
            r@ == le_val(bytes@),
    {
        proof {
            crate::wire::lemma_le_val_bound(bytes@);
            lemma_pow256_values();
        }
        let v = read_le(bytes.as_slice(), 0, 8);
        proof {
            assert(bytes@.subrange(0, 8) =~= bytes@);
        }
        Sid { internal: v as u64 }
    }
}

/// Stream ids drawn by the two peers of a channel can never collide: the
/// initiator's ids are `STREAM_ID_OFFSET1 + i` and the responder's are
/// `STREAM_ID_OFFSET2 + j`, and the two are distinct (with no overflow) for
/// at least 2^63 ids per half.
pub proof fn lemma_sid_halves_disjoint(i: u64, j: u64)
    requires
        i < 0x8000_0000_0000_0000,
        j < 0x8000_0000_0000_0000,
    ensures
        STREAM_ID_OFFSET1 + i != STREAM_ID_OFFSET2 + j,
        STREAM_ID_OFFSET1 + i <= u64::MAX,
        STREAM_ID_OFFSET2 + j <= u64::MAX,
{
}

} // verus!
