//! Delivery-guarantee ("promise") flags attached to a stream when it is
//! opened, immutable for the stream's lifetime.

use vstd::prelude::*;

verus! {

/// Messages are delivered to the application in submission order.
pub const ORDERED: u8 = 0b0000_0001;

/// Payload integrity is verified before delivery; corrupted messages are
/// rejected, not delivered.
pub const CONSISTENCY: u8 = 0b0000_0010;

/// Every submitted message is delivered exactly once, or the stream or
/// channel is reported as failed.
pub const GUARANTEED_DELIVERY: u8 = 0b0000_0100;

/// Payload bytes pass through a compression transform before framing.
pub const COMPRESSED: u8 = 0b0000_1000;

/// Payload bytes pass through an encryption transform keyed by the channel's
/// negotiated secret.
pub const ENCRYPTED: u8 = 0b0001_0000;

/// All defined promise bits.
pub const ALL_PROMISES: u8 = 0b0001_1111;

/// Whether `flag` is one of the five single promise flags.
pub open spec fn is_single_flag(flag: u8) -> bool {
    flag == ORDERED || flag == CONSISTENCY || flag == GUARANTEED_DELIVERY || flag == COMPRESSED
        || flag == ENCRYPTED
}

/// Whether every flag of `flags` is set in `bits`.
pub open spec fn spec_contains(bits: u8, flags: u8) -> bool {
    bits & flags == flags
}

/// A set of promise flags, encoded on the wire as one byte.
#[derive(PartialEq, Eq, Structural, Hash, Clone, Copy, Debug)]
pub struct Promises {
    bits: u8,
}

impl View for Promises {
    type V = u8;

    closed spec fn view(&self) -> u8 {
        self.bits
    }
}

impl Promises {
    /// The empty set of promises.
    pub fn empty() -> (r: Self)
        ensures
            r@ == 0,
    {
        Promises { bits: 0 }
    }

    /// Keeps the defined promise bits of `bits` and drops the rest.
    pub fn from_bits_truncate(bits: u8) -> (r: Self)
        ensures
            r@ == bits & ALL_PROMISES,
    {
        Promises { bits: bits & ALL_PROMISES }
    }

    /// The raw byte value of this promise set.
    pub fn bits(&self) -> (r: u8)
        ensures
            r == self@,
    {
        self.bits
    }

    /// The one-byte wire encoding of this promise set.
    pub fn to_le_bytes(self) -> (r: [u8; 1])
        ensures
            r@ == seq![self@],
    {
        let r: [u8; 1] = [self.bits];
        proof {
            assert(r@ =~= seq![self.bits]);
        }
        r
    }

    /// The promise set with the flags of both operands.
    pub fn union(self, other: Self) -> (r: Self)
        ensures
            r@ == (self@ | other@),
    {
        Promises { bits: self.bits | other.bits }
    }

    /// Whether every flag of `flags` is set.
    pub fn contains(&self, flags: Self) -> (r: bool)
        ensures
            r == spec_contains(self@, flags@),
    {
        self.bits & flags.bits == flags.bits
    }

    /// Whether only defined promise bits are set.
    pub fn valid(&self) -> (r: bool)
        ensures
            r == (self@ & ALL_PROMISES == self@),
    {
        self.bits & ALL_PROMISES == self.bits
    }

    /// Whether the ORDERED promise is set.
    pub fn ordered(&self) -> (r: bool)
        ensures
            r == spec_contains(self@, ORDERED),
    {
        self.bits & ORDERED == ORDERED
    }

    /// Whether the CONSISTENCY promise is set.
    pub fn consistency(&self) -> (r: bool)
        ensures
            r == spec_contains(self@, CONSISTENCY),
    {
        self.bits & CONSISTENCY == CONSISTENCY
    }

    /// Whether the GUARANTEED_DELIVERY promise is set.
    pub fn guaranteed_delivery(&self) -> (r: bool)
        ensures
            r == spec_contains(self@, GUARANTEED_DELIVERY),
    {
        self.bits & GUARANTEED_DELIVERY == GUARANTEED_DELIVERY
    }

    /// Whether the COMPRESSED promise is set.
    pub fn compressed(&self) -> (r: bool)
        ensures
            r == spec_contains(self@, COMPRESSED),
    {
        self.bits & COMPRESSED == COMPRESSED
    }

    /// Whether the ENCRYPTED promise is set.
    pub fn encrypted(&self) -> (r: bool)
        ensures
            r == spec_contains(self@, ENCRYPTED),
    {
        self.bits & ENCRYPTED == ENCRYPTED
    }
}

/// The promise set whose byte value is `bits`, for specifications.
pub closed spec fn spec_from_bits(bits: u8) -> Promises {
    Promises { bits }
}

/// A promise set is determined by its byte value.
pub proof fn lemma_promises_from_view(p: Promises)
    ensures
        p == spec_from_bits(p@),
{
}

/// Truncating to the defined promise bits is idempotent: a truncated byte
/// is already valid.
pub proof fn lemma_truncate_idempotent(b: u8)
    ensures
        (b & ALL_PROMISES) & ALL_PROMISES == b & ALL_PROMISES,
{
    assert((b & 0x1f) & 0x1f == b & 0x1f) by (bit_vector);
}

/// Promise flags are independent: enabling one flag neither alters the byte
/// contribution of any other flag nor whether that other flag reads as set,
/// and the enabled flag itself always reads as set afterwards.
pub proof fn lemma_promise_bits_independent(bits: u8, a: u8, b: u8)
    requires
        is_single_flag(a),
        is_single_flag(b),
        a != b,
    ensures
        (bits | a) & b == bits & b,
        spec_contains(bits | a, b) == spec_contains(bits, b),
        spec_contains(bits | a, a),
{
    assert((a == 1 || a == 2 || a == 4 || a == 8 || a == 16) && (b == 1 || b == 2 || b == 4
        || b == 8 || b == 16) && a != b ==> ((bits | a) & b == bits & b) && ((bits | a) & a
        == a)) by (bit_vector);
}

} // verus!
