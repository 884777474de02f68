//! Little-endian byte encoding of unsigned integers, the base layer of the
//! frame codec.
//!
//! `le_val` gives the numeric value of a byte sequence read little-endian;
//! `le_bytes` gives the canonical `n`-byte little-endian encoding of a value.
//! The two are proved inverse for values in range, which the frame round-trip
//! law builds on.

use vstd::prelude::*;
use vstd::arithmetic::div_mod::lemma_div_denominator;

verus! {

/// 256 raised to the power `n`: the number of values an `n`-byte field can hold.
pub open spec fn pow256(n: int) -> int
    decreases n,
{
    if n <= 0 {
        1
    } else {
        0x100 * pow256(n - 1)
    }
}

/// The numeric value of `s` read as a little-endian integer.
pub open spec fn le_val(s: Seq<u8>) -> int
    decreases s.len(),
{
    if s.len() == 0 {
        0
    } else {
        s[0] + 0x100 * le_val(s.drop_first())
    }
}

/// The canonical `n`-byte little-endian encoding of `v`.
pub open spec fn le_bytes(v: int, n: int) -> Seq<u8>
    decreases n,
{
    if n <= 0 {
        Seq::empty()
    } else {
        seq![(v % 0x100) as u8] + le_bytes(v / 0x100, n - 1)
    }
}

pub proof fn lemma_pow256_pos(n: int)
    ensures
        pow256(n) >= 1,
    decreases n,
{
    if n > 0 {
        lemma_pow256_pos(n - 1);
    }
}

pub proof fn lemma_le_val_bound(s: Seq<u8>)
    ensures
        0 <= le_val(s) < pow256(s.len() as int),
    decreases s.len(),
{
    if s.len() == 0 {
    } else {
        lemma_le_val_bound(s.drop_first());
        lemma_pow256_pos(s.len() - 1);
    }
}

pub proof fn lemma_le_bytes_len(v: int, n: int)
    ensures
        le_bytes(v, n).len() == if n <= 0 { 0int } else { n },
    decreases n,
{
    if n > 0 {
        lemma_le_bytes_len(v / 0x100, n - 1);
    }
}

/// `le_bytes` is a right inverse of `le_val`: encoding a value in range and
/// reading it back yields the value.
pub proof fn lemma_le_val_of_le_bytes(v: int, n: int)
    requires
        0 <= v < pow256(n),
    ensures
        le_val(le_bytes(v, n)) == v,
    decreases n,
{
    if n <= 0 {
    } else {
        let s = le_bytes(v, n);
        lemma_le_bytes_len(v / 0x100, n - 1);
        assert(s.drop_first() =~= le_bytes(v / 0x100, n - 1));
        assert(0 <= v / 0x100 < pow256(n - 1));
        lemma_le_val_of_le_bytes(v / 0x100, n - 1);
    }
}

/// `le_val` is a right inverse of `le_bytes`: re-encoding the value of a byte
/// sequence at its own length yields the same bytes.
pub proof fn lemma_le_bytes_of_le_val(s: Seq<u8>)
    ensures
        le_bytes(le_val(s), s.len() as int) =~= s,
    decreases s.len(),
{
    if s.len() == 0 {
    } else {
        let v = le_val(s);
        assert(v == s[0] + 0x100 * le_val(s.drop_first()));
        lemma_le_val_bound(s.drop_first());
        assert(v == le_val(s.drop_first()) * 0x100 + s[0]);
        assert(v % 0x100 == s[0] && v / 0x100 == le_val(s.drop_first())) by {
            vstd::arithmetic::div_mod::lemma_fundamental_div_mod_converse(
                v,
                0x100,
                le_val(s.drop_first()),
                s[0] as int,
            );
            vstd::arithmetic::div_mod::lemma_fundamental_div_mod_converse_div(
                v,
                0x100,
                le_val(s.drop_first()),
                s[0] as int,
            );
        }
        lemma_le_bytes_of_le_val(s.drop_first());
        lemma_le_bytes_len(v / 0x100, s.len() - 1);
    }
}

/// Appending one more byte to a little-endian encoding.
proof fn lemma_le_bytes_snoc(v: int, n: int)
    requires
        n >= 0,
        v >= 0,
    ensures
        le_bytes(v, n + 1) =~= le_bytes(v, n).push(((v / pow256(n)) % 0x100) as u8),
    decreases n,
{
    if n == 0 {
        assert(le_bytes(v, 1) =~= seq![(v % 0x100) as u8] + le_bytes(v / 0x100, 0));
    } else {
        lemma_le_bytes_snoc(v / 0x100, n - 1);
        lemma_pow256_pos(n - 1);
        assert((v / 0x100) / pow256(n - 1) == v / (0x100 * pow256(n - 1))) by {
            lemma_div_denominator(v, 0x100, pow256(n - 1));
        }
        assert(0x100 * pow256(n - 1) == pow256(n));
        assert(le_bytes(v, n + 1) =~= seq![(v % 0x100) as u8] + le_bytes(v / 0x100, n));
    }
}

/// Appends the `n`-byte little-endian encoding of `v` to `out`.
pub fn write_le(out: &mut Vec<u8>, v: u128, n: usize)
    requires
        n <= 16,
        (v as int) < pow256(n as int),
    ensures
        final(out)@ == old(out)@ + le_bytes(v as int, n as int),
{
    let ghost orig = out@;
    let mut cur: u128 = v;
    let mut k: usize = 0;
    proof {
        assert(le_bytes(v as int, 0) =~= Seq::<u8>::empty());
        assert(out@ =~= orig + le_bytes(v as int, 0));
    }
    while k < n
        invariant
            k <= n,
            n <= 16,
            (v as int) < pow256(n as int),
            cur as int == (v as int) / pow256(k as int),
            out@ == orig + le_bytes(v as int, k as int),
        decreases n - k,
    {
        let b: u8 = (cur % 0x100) as u8;
        out.push(b);
        proof {
            lemma_le_bytes_snoc(v as int, k as int);
            assert(b == ((v as int) / pow256(k as int)) % 0x100);
            assert(out@ =~= orig + le_bytes(v as int, k as int + 1));
            lemma_pow256_pos(k as int);
            lemma_div_denominator(v as int, pow256(k as int), 0x100);
            assert(pow256(k as int) * 0x100 == 0x100 * pow256(k as int));
            assert(0x100 * pow256(k as int) == pow256(k as int + 1));
        }
        cur = cur / 0x100;
        k = k + 1;
    }
    proof {
        lemma_pow256_pos(n as int);
    }
}

/// Reads the `n` bytes of `buf` starting at `off` as a little-endian integer.
pub fn read_le(buf: &[u8], off: usize, n: usize) -> (r: u128)
    requires
        n <= 16,
        off + n <= buf@.len(),
    ensures
        r as int == le_val(buf@.subrange(off as int, off as int + n as int)),
{
    let ghost s = buf@.subrange(off as int, off as int + n as int);
    let blen: usize = buf.len();
    let mut acc: u128 = 0;
    let mut j: usize = n;
    proof {
        assert(s.skip(n as int) =~= Seq::<u8>::empty());
    }
    while j > 0
        invariant
            j <= n,
            n <= 16,
            off + n <= blen,
            blen == buf@.len(),
            s == buf@.subrange(off as int, off as int + n as int),
            acc as int == le_val(s.skip(j as int)),
        decreases j,
    {
        proof {
            lemma_le_val_bound(s.skip(j as int));
            lemma_pow256_mono(n as int - j as int, 15);
            lemma_pow256_values();
            assert(s.skip(j as int - 1).drop_first() =~= s.skip(j as int));
            assert(s.skip(j as int - 1)[0] == buf@[off + j - 1]);
        }
        let b: u8 = buf[off + j - 1];
        acc = acc * 0x100 + b as u128;
        j = j - 1;
    }
    proof {
        assert(s.skip(0) =~= s);
    }
    acc
}

/// Concrete values of `pow256` at the widths the codec uses.
pub proof fn lemma_pow256_values()
    ensures
        pow256(1) == 0x100,
        pow256(2) == 0x1_0000,
        pow256(4) == 0x1_0000_0000,
        pow256(8) == 0x1_0000_0000_0000_0000,
        pow256(15) == 0x1_00000000_00000000_00000000_000000,
        pow256(16) == 0x1_00000000_00000000_00000000_00000000,
{
    reveal_with_fuel(pow256, 17);
}

proof fn lemma_pow256_mono(a: int, b: int)
    requires
        a <= b,
    ensures
        pow256(a) <= pow256(b),
    decreases b - a,
{
    if a < b {
        lemma_pow256_mono(a, b - 1);
        lemma_pow256_pos(b - 1);
    }
}

} // verus!
