//! The wire frame: the closed set of frame kinds, their fixed binary
//! layouts, and the total encode/decode pair between them.
//!
//! Every multi-byte numeric field is little-endian. Each frame kind has a
//! numeric tag; a frame travels as its tag byte followed by the body laid
//! out by `spec_encode`. Decoding takes the kind and the body bytes and
//! fails explicitly on malformed input.

use vstd::prelude::*;
use crate::error::DecodeError;
use crate::promises::{Promises, ALL_PROMISES};
use crate::types::{Pid, Sid};
use crate::wire::{le_bytes, le_val, lemma_le_bytes_len, lemma_le_val_bound,
    lemma_le_val_of_le_bytes, lemma_pow256_values, read_le, write_le};
use crate::{Mid, Prio};

verus! {

/// One unit of wire transmission between the two ends of a channel.
#[derive(PartialEq, Eq, Debug)]
pub enum Frame {
    /// Opens a connection: magic token and protocol version.
    Handshake { magic_number: [u8; 7], version: [u32; 3] },
    /// Identifies the sender: participant id and resumption secret.
    Init { pid: Pid, secret: u128 },
    /// Gracefully shuts this channel down.
    Shutdown,
    /// Opens a stream with its priority and promises.
    OpenStream { sid: Sid, prio: Prio, promises: Promises },
    /// Closes a stream.
    CloseStream { sid: Sid },
    /// Announces a message: its id, stream, and total payload length.
    DataHeader { mid: Mid, sid: Sid, length: u64 },
    /// Carries one fragment of a message's payload.
    Data { mid: Mid, start: u64, data: Vec<u8> },
    /// Debug-only escape hatch carrying raw bytes.
    Raw(Vec<u8>),
}

/// The specification-level value of a frame.
#[verifier::ext_equal]
pub ghost enum FrameV {
    Handshake { magic_number: Seq<u8>, version: Seq<u32> },
    Init { pid: u128, secret: u128 },
    Shutdown,
    OpenStream { sid: u64, prio: u8, promises: u8 },
    CloseStream { sid: u64 },
    DataHeader { mid: u64, sid: u64, length: u64 },
    Data { mid: u64, start: u64, data: Seq<u8> },
    Raw { data: Seq<u8> },
}

impl View for Frame {
    type V = FrameV;

    open spec fn view(&self) -> FrameV {
        match self {
            Frame::Handshake { magic_number, version } => FrameV::Handshake {
                magic_number: magic_number@,
                version: version@,
            },
            Frame::Init { pid, secret } => FrameV::Init { pid: pid@, secret: *secret },
            Frame::Shutdown => FrameV::Shutdown,
            Frame::OpenStream { sid, prio, promises } => FrameV::OpenStream {
                sid: sid@,
                prio: *prio,
                promises: promises@,
            },
            Frame::CloseStream { sid } => FrameV::CloseStream { sid: sid@ },
            Frame::DataHeader { mid, sid, length } => FrameV::DataHeader {
                mid: *mid,
                sid: sid@,
                length: *length,
            },
            Frame::Data { mid, start, data } => FrameV::Data {
                mid: *mid,
                start: *start,
                data: data@,
            },
            Frame::Raw(data) => FrameV::Raw { data: data@ },
        }
    }
}

impl FrameV {
    /// Whether the fields of this frame fit its wire layout.
    pub open spec fn wf(self) -> bool {
        match self {
            FrameV::Handshake { magic_number, version } => magic_number.len() == 7
                && version.len() == 3,
            FrameV::OpenStream { promises, .. } => promises & ALL_PROMISES == promises,
            FrameV::Raw { data } => data.len() <= 0xffff,
            _ => true,
        }
    }

    /// The numeric tag of this frame's kind.
    pub open spec fn spec_tag(self) -> u8 {
        match self {
            FrameV::Handshake { .. } => 0,
            FrameV::Init { .. } => 1,
            FrameV::Shutdown => 2,
            FrameV::OpenStream { .. } => 3,
            FrameV::CloseStream { .. } => 4,
            FrameV::DataHeader { .. } => 5,
            FrameV::Data { .. } => 6,
            FrameV::Raw { .. } => 7,
        }
    }
}

/// The wire body of a frame (tag byte not included).
pub open spec fn spec_encode(f: FrameV) -> Seq<u8> {
    match f {
        FrameV::Handshake { magic_number, version } => magic_number + le_bytes(version[0] as int, 4)
            + le_bytes(version[1] as int, 4) + le_bytes(version[2] as int, 4),
        FrameV::Init { pid, secret } => le_bytes(pid as int, 16) + le_bytes(secret as int, 16),
        FrameV::Shutdown => Seq::empty(),
        FrameV::OpenStream { sid, prio, promises } => le_bytes(sid as int, 8) + seq![prio]
            + seq![promises],
        FrameV::CloseStream { sid } => le_bytes(sid as int, 8),
        FrameV::DataHeader { mid, sid, length } => le_bytes(mid as int, 8) + le_bytes(sid as int, 8)
            + le_bytes(length as int, 8),
        FrameV::Data { mid, start, data } => le_bytes(mid as int, 8) + le_bytes(start as int, 8)
            + data,
        FrameV::Raw { data } => le_bytes(data.len() as int, 2) + data,
    }
}

/// The frame a body of bytes decodes to under a kind tag, or `None` if the
/// body is malformed for that kind.
pub open spec fn spec_decode(kind: u8, s: Seq<u8>) -> Option<FrameV> {
    if kind == 0 {
        if s.len() == 19 {
            Some(FrameV::Handshake {
                magic_number: s.subrange(0, 7),
                version: seq![
                    le_val(s.subrange(7, 11)) as u32,
                    le_val(s.subrange(11, 15)) as u32,
                    le_val(s.subrange(15, 19)) as u32,
                ],
            })
        } else {
            None
        }
    } else if kind == 1 {
        if s.len() == 32 {
            Some(FrameV::Init {
                pid: le_val(s.subrange(0, 16)) as u128,
                secret: le_val(s.subrange(16, 32)) as u128,
            })
        } else {
            None
        }
    } else if kind == 2 {
        if s.len() == 0 {
            Some(FrameV::Shutdown)
        } else {
            None
        }
    } else if kind == 3 {
        if s.len() == 10 {
            Some(FrameV::OpenStream {
                sid: le_val(s.subrange(0, 8)) as u64,
                prio: s[8],
                promises: s[9] & ALL_PROMISES,
            })
        } else {
            None
        }
    } else if kind == 4 {
        if s.len() == 8 {
            Some(FrameV::CloseStream { sid: le_val(s.subrange(0, 8)) as u64 })
        } else {
            None
        }
    } else if kind == 5 {
        if s.len() == 24 {
            Some(FrameV::DataHeader {
                mid: le_val(s.subrange(0, 8)) as u64,
                sid: le_val(s.subrange(8, 16)) as u64,
                length: le_val(s.subrange(16, 24)) as u64,
            })
        } else {
            None
        }
    } else if kind == 6 {
        if s.len() >= 16 {
            Some(FrameV::Data {
                mid: le_val(s.subrange(0, 8)) as u64,
                start: le_val(s.subrange(8, 16)) as u64,
                data: s.skip(16),
            })
        } else {
            None
        }
    } else if kind == 7 {
        if s.len() >= 2 && le_val(s.subrange(0, 2)) == s.len() - 2 {
            Some(FrameV::Raw { data: s.skip(2) })
        } else {
            None
        }
    } else {
        None
    }
}

/// The error `decode` reports for a body that decodes to `None`.
pub open spec fn spec_decode_err(kind: u8, s: Seq<u8>) -> DecodeError {
    if kind > 7 {
        DecodeError::UnknownKind
    } else if kind == 7 && s.len() >= 2 {
        DecodeError::LengthMismatch
    } else {
        DecodeError::WrongLength
    }
}

/// Appends a copy of `data` to `out`.
fn push_slice(out: &mut Vec<u8>, data: &[u8])
    ensures
        final(out)@ == old(out)@ + data@,
{
    out.extend_from_slice(data);
}

impl Frame {
    /// The printable name of the frame kind with numeric tag `i`, or the
    /// empty string for a tag that names no kind.
    pub fn int_to_string(i: u8) -> (r: &'static str)
        ensures
            r@ == spec_frame_name(i),
    {
        match i {
            0 => "Handshake",
            1 => "Init",
            2 => "Shutdown",
            3 => "OpenStream",
            4 => "CloseStream",
            5 => "DataHeader",
            6 => "Data",
            7 => "Raw",
            _ => "",
        }
    }

    /// The numeric tag of this frame's kind.
    pub fn get_int(&self) -> (r: u8)
        ensures
            r == self@.spec_tag(),
    {
        match self {
            Frame::Handshake { .. } => 0,
            Frame::Init { .. } => 1,
            Frame::Shutdown => 2,
            Frame::OpenStream { .. } => 3,
            Frame::CloseStream { .. } => 4,
            Frame::DataHeader { .. } => 5,
            Frame::Data { .. } => 6,
            Frame::Raw(_) => 7,
        }
    }

    /// The printable name of this frame's kind.
    pub fn get_string(&self) -> (r: &'static str)
        ensures
            r@ == spec_frame_name(self@.spec_tag()),
    {
        Self::int_to_string(self.get_int())
    }

    /// Encodes the body of this frame for the wire (tag byte not included).
    /// Deterministic and total over well-formed frames.
    pub fn encode(&self) -> (out: Vec<u8>)
        requires
            self@.wf(),
        ensures
            out@ == spec_encode(self@),
    {
        proof {
            lemma_pow256_values();
        }
        let mut out: Vec<u8> = Vec::new();
        match self {
            Frame::Handshake { magic_number, version } => {
                push_slice(&mut out, magic_number.as_slice());
                write_le(&mut out, version[0] as u128, 4);
                write_le(&mut out, version[1] as u128, 4);
                write_le(&mut out, version[2] as u128, 4);
            },
            Frame::Init { pid, secret } => {
                let pid_bytes = pid.to_le_bytes();
                push_slice(&mut out, pid_bytes.as_slice());
                write_le(&mut out, *secret, 16);
            },
            Frame::Shutdown => {},
            Frame::OpenStream { sid, prio, promises } => {
                write_le(&mut out, sid.value() as u128, 8);
                out.push(*prio);
                out.push(promises.bits());
            },
            Frame::CloseStream { sid } => {
                write_le(&mut out, sid.value() as u128, 8);
            },
            Frame::DataHeader { mid, sid, length } => {
                write_le(&mut out, *mid as u128, 8);
                write_le(&mut out, sid.value() as u128, 8);
                write_le(&mut out, *length as u128, 8);
            },
            Frame::Data { mid, start, data } => {
                write_le(&mut out, *mid as u128, 8);
                write_le(&mut out, *start as u128, 8);
                push_slice(&mut out, data.as_slice());
            },
            Frame::Raw(data) => {
                write_le(&mut out, data.len() as u128, 2);
                push_slice(&mut out, data.as_slice());
            },
        }
        proof {
            assert(out@ =~= spec_encode(self@));
        }
        out
    }

    /// Decodes the body bytes of a frame of numeric kind `kind`. Succeeds
    /// exactly on the byte count (and, for Raw, the length field) the kind
    /// expects; the result is always well-formed.
    pub fn decode(kind: u8, bytes: &Vec<u8>) -> (r: Result<Frame, DecodeError>)
        ensures
            match r {
                Ok(f) => f@.wf() && spec_decode(kind, bytes@) == Some(f@),
                Err(e) => spec_decode(kind, bytes@) is None && e == spec_decode_err(
                    kind,
                    bytes@,
                ),
            },
    {
        proof {
            lemma_pow256_values();
        }
        let n = bytes.len();
        match kind {
            0 => {
                if n != 19 {
                    return Err(DecodeError::WrongLength);
                }
                let arr: [u8; 19] = [
                    bytes[0], bytes[1], bytes[2], bytes[3], bytes[4], bytes[5], bytes[6],
                    bytes[7], bytes[8], bytes[9], bytes[10], bytes[11], bytes[12], bytes[13],
                    bytes[14], bytes[15], bytes[16], bytes[17], bytes[18],
                ];
                proof {
                    assert(arr@ =~= bytes@);
                }
                Ok(Frame::gen_handshake(arr))
            },
            1 => {
                if n != 32 {
                    return Err(DecodeError::WrongLength);
                }
                let pid_arr: [u8; 16] = [
                    bytes[0], bytes[1], bytes[2], bytes[3], bytes[4], bytes[5], bytes[6], bytes[7],
                    bytes[8], bytes[9], bytes[10], bytes[11], bytes[12], bytes[13], bytes[14],
                    bytes[15],
                ];
                proof {
                    assert(pid_arr@ =~= bytes@.subrange(0, 16));
                    lemma_le_val_bound(bytes@.subrange(16, 32));
                }
                let pid = Pid::from_le_bytes(pid_arr);
                let secret = read_le(bytes.as_slice(), 16, 16);
                Ok(Frame::Init { pid, secret })
            },
            2 => {
                if n != 0 {
                    return Err(DecodeError::WrongLength);
                }
                Ok(Frame::Shutdown)
            },
            3 => {
                if n != 10 {
                    return Err(DecodeError::WrongLength);
                }
                proof {
                    lemma_le_val_bound(bytes@.subrange(0, 8));
                    crate::promises::lemma_truncate_idempotent(bytes@[9]);
                }
                let sid = Sid::new(read_le(bytes.as_slice(), 0, 8) as u64);
                Ok(Frame::OpenStream {
                    sid,
                    prio: bytes[8],
                    promises: Promises::from_bits_truncate(bytes[9]),
                })
            },
            4 => {
                if n != 8 {
                    return Err(DecodeError::WrongLength);
                }
                proof {
                    lemma_le_val_bound(bytes@.subrange(0, 8));
                }
                let sid = Sid::new(read_le(bytes.as_slice(), 0, 8) as u64);
                Ok(Frame::CloseStream { sid })
            },
            5 => {
                if n != 24 {
                    return Err(DecodeError::WrongLength);
                }
                proof {
                    lemma_le_val_bound(bytes@.subrange(0, 8));
                    lemma_le_val_bound(bytes@.subrange(8, 16));
                    lemma_le_val_bound(bytes@.subrange(16, 24));
                }
                let mid = read_le(bytes.as_slice(), 0, 8) as u64;
                let sid = Sid::new(read_le(bytes.as_slice(), 8, 8) as u64);
                let length = read_le(bytes.as_slice(), 16, 8) as u64;
                Ok(Frame::DataHeader { mid, sid, length })
            },
            6 => {
                if n < 16 {
                    return Err(DecodeError::WrongLength);
                }
                proof {
                    lemma_le_val_bound(bytes@.subrange(0, 8));
                    lemma_le_val_bound(bytes@.subrange(8, 16));
                }
                let mid = read_le(bytes.as_slice(), 0, 8) as u64;
                let start = read_le(bytes.as_slice(), 8, 8) as u64;
                let data = copy_tail(bytes, 16);
                Ok(Frame::Data { mid, start, data })
            },
            7 => {
                if n < 2 {
                    return Err(DecodeError::WrongLength);
                }
                proof {
                    lemma_le_val_bound(bytes@.subrange(0, 2));
                }
                let declared = read_le(bytes.as_slice(), 0, 2) as u16;
                if declared as usize != n - 2 {
                    return Err(DecodeError::LengthMismatch);
                }
                let data = copy_tail(bytes, 2);
                Ok(Frame::Raw(data))
            },
            _ => Err(DecodeError::UnknownKind),
        }
    }

    /// Reads a Handshake frame from its 19 body bytes: 7-byte magic token,
    /// then major, minor, and patch version, 4 bytes each.
    pub fn gen_handshake(buf: [u8; 19]) -> (r: Self)
        ensures
            Some(r@) == spec_decode(0, buf@),
            r@.wf(),
    {
        proof {
            lemma_pow256_values();
            lemma_le_val_bound(buf@.subrange(7, 11));
            lemma_le_val_bound(buf@.subrange(11, 15));
            lemma_le_val_bound(buf@.subrange(15, 19));
        }
        let magic_number: [u8; 7] = [buf[0], buf[1], buf[2], buf[3], buf[4], buf[5], buf[6]];
        let version: [u32; 3] = [
            read_le(buf.as_slice(), 7, 4) as u32,
            read_le(buf.as_slice(), 11, 4) as u32,
            read_le(buf.as_slice(), 15, 4) as u32,
        ];
        let r = Frame::Handshake { magic_number, version };
        proof {
            assert(magic_number@ =~= buf@.subrange(0, 7));
            assert(version@ =~= seq![
                le_val(buf@.subrange(7, 11)) as u32,
                le_val(buf@.subrange(11, 15)) as u32,
                le_val(buf@.subrange(15, 19)) as u32,
            ]);
        }
        r
    }

    /// Reads an Init frame from its 32 body bytes: 16-byte participant id,
    /// then 16-byte secret.
    pub fn gen_init(buf: [u8; 32]) -> (r: Self)
        ensures
            Some(r@) == spec_decode(1, buf@),
            r@.wf(),
    {
        proof {
            lemma_pow256_values();
            lemma_le_val_bound(buf@.subrange(16, 32));
        }
        let pid_arr: [u8; 16] = [
            buf[0], buf[1], buf[2], buf[3], buf[4], buf[5], buf[6], buf[7], buf[8], buf[9],
            buf[10], buf[11], buf[12], buf[13], buf[14], buf[15],
        ];
        proof {
            assert(pid_arr@ =~= buf@.subrange(0, 16));
        }
        let pid = Pid::from_le_bytes(pid_arr);
        let secret = read_le(buf.as_slice(), 16, 16);
        Frame::Init { pid, secret }
    }

    /// Reads an OpenStream frame from its 10 body bytes: 8-byte stream id,
    /// priority byte, promise byte.
    pub fn gen_open_stream(buf: [u8; 10]) -> (r: Self)
        ensures
            Some(r@) == spec_decode(3, buf@),
            r@.wf(),
    {
        proof {
            lemma_pow256_values();
            lemma_le_val_bound(buf@.subrange(0, 8));
            crate::promises::lemma_truncate_idempotent(buf@[9]);
        }
        Frame::OpenStream {
            sid: Sid::new(read_le(buf.as_slice(), 0, 8) as u64),
            prio: buf[8],
            promises: Promises::from_bits_truncate(buf[9]),
        }
    }

    /// Reads a CloseStream frame from its 8 body bytes: the stream id.
    pub fn gen_close_stream(buf: [u8; 8]) -> (r: Self)
        ensures
            Some(r@) == spec_decode(4, buf@),
            r@.wf(),
    {
        proof {
            lemma_pow256_values();
            lemma_le_val_bound(buf@.subrange(0, 8));
        }
        Frame::CloseStream { sid: Sid::new(read_le(buf.as_slice(), 0, 8) as u64) }
    }

    /// Reads a DataHeader frame from its 24 body bytes: message id, stream
    /// id, and declared total payload length, 8 bytes each.
    pub fn gen_data_header(buf: [u8; 24]) -> (r: Self)
        ensures
            Some(r@) == spec_decode(5, buf@),
            r@.wf(),
    {
        proof {
            lemma_pow256_values();
            lemma_le_val_bound(buf@.subrange(0, 8));
            lemma_le_val_bound(buf@.subrange(8, 16));
            lemma_le_val_bound(buf@.subrange(16, 24));
        }
        Frame::DataHeader {
            mid: read_le(buf.as_slice(), 0, 8) as u64,
            sid: Sid::new(read_le(buf.as_slice(), 8, 8) as u64),
            length: read_le(buf.as_slice(), 16, 8) as u64,
        }
    }

    /// Reads the header of a Data frame as it appears on a length-delimited
    /// byte stream: message id, start offset, and the fragment's byte count.
    pub fn gen_data(buf: [u8; 18]) -> (r: (Mid, u64, u16))
        ensures
            r.0 == le_val(buf@.subrange(0, 8)),
            r.1 == le_val(buf@.subrange(8, 16)),
            r.2 == le_val(buf@.subrange(16, 18)),
    {
        proof {
            lemma_pow256_values();
            lemma_le_val_bound(buf@.subrange(0, 8));
            lemma_le_val_bound(buf@.subrange(8, 16));
            lemma_le_val_bound(buf@.subrange(16, 18));
        }
        let mid = read_le(buf.as_slice(), 0, 8) as u64;
        let start = read_le(buf.as_slice(), 8, 8) as u64;
        let length = read_le(buf.as_slice(), 16, 2) as u16;
        (mid, start, length)
    }

    /// Reads the length field of a Raw frame from its first 2 bytes.
    pub fn gen_raw(buf: [u8; 2]) -> (r: u16)
        ensures
            r == le_val(buf@),
    {
        proof {
            lemma_pow256_values();
            lemma_le_val_bound(buf@.subrange(0, 2));
            assert(buf@.subrange(0, 2) =~= buf@);
        }
        read_le(buf.as_slice(), 0, 2) as u16
    }
}

/// The printable name of the frame kind with numeric tag `i`.
pub open spec fn spec_frame_name(i: u8) -> Seq<char> {
    if i == 0 {
        "Handshake"@
    } else if i == 1 {
        "Init"@
    } else if i == 2 {
        "Shutdown"@
    } else if i == 3 {
        "OpenStream"@
    } else if i == 4 {
        "CloseStream"@
    } else if i == 5 {
        "DataHeader"@
    } else if i == 6 {
        "Data"@
    } else if i == 7 {
        "Raw"@
    } else {
        ""@
    }
}

/// Copies `bytes` from position `from` to the end into a fresh vector.
fn copy_tail(bytes: &Vec<u8>, from: usize) -> (r: Vec<u8>)
    requires
        from <= bytes@.len(),
    ensures
        r@ == bytes@.skip(from as int),
{
    let mut r: Vec<u8> = Vec::new();
    let mut i: usize = from;
    let n = bytes.len();
    while i < n
        invariant
            from <= i <= n,
            n == bytes@.len(),
            r@ =~= bytes@.subrange(from as int, i as int),
        decreases n - i,
    {
        r.push(bytes[i]);
        i = i + 1;
    }
    proof {
        assert(bytes@.subrange(from as int, n as int) =~= bytes@.skip(from as int));
    }
    r
}

/// Round-trip law of the codec: decoding what `spec_encode` laid out, under
/// the frame's own kind tag, yields the frame again, for every well-formed
/// frame.
pub proof fn lemma_codec_roundtrip(f: FrameV)
    requires
        f.wf(),
    ensures
        spec_decode(f.spec_tag(), spec_encode(f)) == Some(f),
{
    lemma_pow256_values();
    let s = spec_encode(f);
    match f {
        FrameV::Handshake { magic_number, version } => {
            lemma_le_bytes_len(version[0] as int, 4);
            lemma_le_bytes_len(version[1] as int, 4);
            lemma_le_bytes_len(version[2] as int, 4);
            assert(s.len() == 19);
            assert(s.subrange(0, 7) =~= magic_number);
            assert(s.subrange(7, 11) =~= le_bytes(version[0] as int, 4));
            assert(s.subrange(11, 15) =~= le_bytes(version[1] as int, 4));
            assert(s.subrange(15, 19) =~= le_bytes(version[2] as int, 4));
            lemma_le_val_of_le_bytes(version[0] as int, 4);
            lemma_le_val_of_le_bytes(version[1] as int, 4);
            lemma_le_val_of_le_bytes(version[2] as int, 4);
            assert(spec_decode(0, s)->Some_0 =~= f);
        },
        FrameV::Init { pid, secret } => {
            lemma_le_bytes_len(pid as int, 16);
            lemma_le_bytes_len(secret as int, 16);
            assert(s.subrange(0, 16) =~= le_bytes(pid as int, 16));
            assert(s.subrange(16, 32) =~= le_bytes(secret as int, 16));
            lemma_le_val_of_le_bytes(pid as int, 16);
            lemma_le_val_of_le_bytes(secret as int, 16);
        },
        FrameV::Shutdown => {},
        FrameV::OpenStream { sid, prio, promises } => {
            lemma_le_bytes_len(sid as int, 8);
            assert(s.len() == 10);
            assert(s.subrange(0, 8) =~= le_bytes(sid as int, 8));
            lemma_le_val_of_le_bytes(sid as int, 8);
            assert(s[8] == prio);
            assert(s[9] == promises);
        },
        FrameV::CloseStream { sid } => {
            lemma_le_bytes_len(sid as int, 8);
            assert(s.subrange(0, 8) =~= le_bytes(sid as int, 8));
            lemma_le_val_of_le_bytes(sid as int, 8);
        },
        FrameV::DataHeader { mid, sid, length } => {
            lemma_le_bytes_len(mid as int, 8);
            lemma_le_bytes_len(sid as int, 8);
            lemma_le_bytes_len(length as int, 8);
            assert(s.subrange(0, 8) =~= le_bytes(mid as int, 8));
            assert(s.subrange(8, 16) =~= le_bytes(sid as int, 8));
            assert(s.subrange(16, 24) =~= le_bytes(length as int, 8));
            lemma_le_val_of_le_bytes(mid as int, 8);
            lemma_le_val_of_le_bytes(sid as int, 8);
            lemma_le_val_of_le_bytes(length as int, 8);
        },
        FrameV::Data { mid, start, data } => {
            lemma_le_bytes_len(mid as int, 8);
            lemma_le_bytes_len(start as int, 8);
            assert(s.subrange(0, 8) =~= le_bytes(mid as int, 8));
            assert(s.subrange(8, 16) =~= le_bytes(start as int, 8));
            lemma_le_val_of_le_bytes(mid as int, 8);
            lemma_le_val_of_le_bytes(start as int, 8);
            assert(s.skip(16) =~= data);
        },
        FrameV::Raw { data } => {
            lemma_le_bytes_len(data.len() as int, 2);
            assert(s.subrange(0, 2) =~= le_bytes(data.len() as int, 2));
            lemma_le_val_of_le_bytes(data.len() as int, 2);
            assert(s.skip(2) =~= data);
        },
    }
}

} // verus!
