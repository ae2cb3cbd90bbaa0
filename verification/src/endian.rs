//! Little-endian integers as sequences of bytes, and two's complement.

use vstd::arithmetic::div_mod::{lemma_mod_breakdown, lemma_small_mod};
use vstd::prelude::*;

verus! {

/// 256 to the power `n`.
pub open spec fn pow256(n: nat) -> nat
    decreases n,
{
    if n == 0 {
        1
    } else {
        256 * pow256((n - 1) as nat)
    }
}

/// The number that `bytes` spell, least significant byte first.
pub open spec fn le_value(bytes: Seq<u8>) -> nat
    decreases bytes.len(),
{
    if bytes.len() == 0 {
        0
    } else {
        bytes[0] as nat + 256 * le_value(bytes.drop_first())
    }
}

/// The `width` low bytes of `value`, least significant byte first.
pub open spec fn le_bytes(value: nat, width: nat) -> Seq<u8>
    decreases width,
{
    if width == 0 {
        Seq::empty()
    } else {
        seq![(value % 256) as u8] + le_bytes(value / 256, (width - 1) as nat)
    }
}

/// The signed number that the `width`-byte pattern `raw` stands for.
pub open spec fn from_twos_complement(raw: nat, width: nat) -> int {
    if 2 * raw >= pow256(width) {
        raw - pow256(width)
    } else {
        raw as int
    }
}

/// The `width`-byte pattern that stands for the signed number `value`.
pub open spec fn to_twos_complement(value: int, width: nat) -> nat {
    if value < 0 {
        (value + pow256(width)) as nat
    } else {
        value as nat
    }
}

/// The powers of 256 up to the eighth.
pub proof fn lemma_pow256_values()
    ensures
        pow256(0) == 1,
        pow256(1) == 0x100,
        pow256(2) == 0x1_0000,
        pow256(3) == 0x100_0000,
        pow256(4) == 0x1_0000_0000,
        pow256(5) == 0x100_0000_0000,
        pow256(6) == 0x1_0000_0000_0000,
        pow256(7) == 0x100_0000_0000_0000,
        pow256(8) == 0x1_0000_0000_0000_0000,
{
    reveal_with_fuel(pow256, 9);
}

/// A larger exponent gives no smaller power.
pub proof fn lemma_pow256_grows(m: nat, n: nat)
    requires
        m <= n,
    ensures
        0 < pow256(m) <= pow256(n),
    decreases n,
{
    if n == 0 {
    } else if m < n {
        lemma_pow256_grows(m, (n - 1) as nat);
    } else {
        lemma_pow256_grows((m - 1) as nat, (n - 1) as nat);
    }
}

/// `le_bytes` gives exactly `width` bytes.
pub proof fn lemma_le_bytes_len(value: nat, width: nat)
    ensures
        le_bytes(value, width).len() == width,
    decreases width,
{
    if width > 0 {
        lemma_le_bytes_len(value / 256, (width - 1) as nat);
    }
}

/// `n` bytes spell a number below 256 to the `n`.
pub proof fn lemma_le_value_bound(bytes: Seq<u8>)
    ensures
        le_value(bytes) < pow256(bytes.len()),
    decreases bytes.len(),
{
    if bytes.len() > 0 {
        lemma_le_value_bound(bytes.drop_first());
    }
}

/// Writing the number that some bytes spell gives those bytes back.
pub proof fn lemma_le_bytes_of_value(bytes: Seq<u8>)
    ensures
        le_bytes(le_value(bytes), bytes.len()) == bytes,
    decreases bytes.len(),
{
    if bytes.len() > 0 {
        let rest = bytes.drop_first();
        lemma_le_bytes_of_value(rest);
        let v = le_value(bytes);
        assert(v % 256 == bytes[0] as nat);
        assert(v / 256 == le_value(rest));
        assert(seq![bytes[0]] + rest =~= bytes);
    } else {
        assert(le_bytes(le_value(bytes), 0) =~= bytes);
    }
}

/// Reading `width` written bytes gives the number back, reduced to `width`
/// bytes.
pub proof fn lemma_le_value_of_bytes(value: nat, width: nat)
    ensures
        le_value(le_bytes(value, width)) == value % pow256(width),
    decreases width,
{
    if width > 0 {
        let rest = le_bytes(value / 256, (width - 1) as nat);
        let all = le_bytes(value, width);
        lemma_le_value_of_bytes(value / 256, (width - 1) as nat);
        lemma_pow256_grows(0, (width - 1) as nat);
        assert(all.drop_first() =~= rest);
        lemma_mod_breakdown(value as int, 256, pow256((width - 1) as nat) as int);
    }
}

/// A number that fits in `width` bytes survives writing and reading.
pub proof fn lemma_le_value_of_bytes_small(value: nat, width: nat)
    requires
        value < pow256(width),
    ensures
        le_value(le_bytes(value, width)) == value,
{
    lemma_le_value_of_bytes(value, width);
    lemma_small_mod(value, pow256(width));
}

/// Two's complement, read and written back, is the same pattern.
pub proof fn lemma_twos_complement_of_raw(raw: nat, width: nat)
    requires
        raw < pow256(width),
    ensures
        -(pow256(width) as int) <= 2 * from_twos_complement(raw, width) < pow256(width),
        to_twos_complement(from_twos_complement(raw, width), width) == raw,
{
}

/// Two's complement, written and read back, is the same number.
pub proof fn lemma_twos_complement_of_value(value: int, width: nat)
    requires
        -(pow256(width) as int) <= 2 * value < pow256(width),
    ensures
        to_twos_complement(value, width) < pow256(width),
        from_twos_complement(to_twos_complement(value, width), width) == value,
{
}

/// 256 to the power `width`, as far as it fits in 128 bits.
pub fn power_of_256(width: usize) -> (r: u128)
    requires
        width <= 15,
    ensures
        r == pow256(width as nat),
{
    let mut r: u128 = 1;
    let mut i: usize = 0;
    while i < width
        invariant
            i <= width <= 15,
            r == pow256(i as nat),
        decreases width - i,
    {
        proof {
            lemma_pow256_grows((i + 1) as nat, 15);
            assert(pow256(15) == 0x1_0000_0000_0000_0000_0000_0000_0000_00) by {
                reveal_with_fuel(pow256, 16);
            }
        }
        r = r * 256;
        i = i + 1;
    }
    r
}

/// Reads the `width` bytes of `bytes` from `start` on as one little-endian
/// number.
pub fn read_le(bytes: &[u8], start: usize, width: usize) -> (r: u64)
    requires
        start + width <= bytes@.len(),
        width <= 8,
    ensures
        r == le_value(bytes@.subrange(start as int, start + width)),
{
    let ghost end = start + width;
    let total = bytes.len();
    let mut r: u64 = 0;
    let mut i: usize = width;
    while i > 0
        invariant
            i <= width <= 8,
            end == start + width,
            end <= bytes@.len() == total,
            r == le_value(bytes@.subrange(start + i, end)),
        decreases i,
    {
        let ghost tail = bytes@.subrange(start + i, end);
        let ghost more = bytes@.subrange(start + i - 1, end);
        proof {
            lemma_le_value_bound(tail);
            lemma_le_value_bound(more);
            lemma_pow256_grows(more.len(), 8);
            lemma_pow256_values();
            assert(more.drop_first() =~= tail);
        }
        i = i - 1;
        r = r * 256 + bytes[start + i] as u64;
    }
    r
}

/// Writes the `width` low bytes of `value`, least significant first.
pub fn write_le(value: u64, width: usize) -> (out: Vec<u8>)
    ensures
        out@ == le_bytes(value as nat, width as nat),
{
    let mut out: Vec<u8> = Vec::new();
    let mut rest: u64 = value;
    let mut i: usize = 0;
    while i < width
        invariant
            i <= width,
            out@ + le_bytes(rest as nat, (width - i) as nat) == le_bytes(value as nat, width as nat),
        decreases width - i,
    {
        let ghost before = out@;
        let ghost tail = le_bytes((rest / 256) as nat, (width - i - 1) as nat);
        let low: u8 = (rest % 256) as u8;
        out.push(low);
        assert(out@ + tail =~= before + (seq![low] + tail));
        rest = rest / 256;
        i = i + 1;
    }
    assert(out@ + Seq::<u8>::empty() =~= out@);
    out
}

} // verus!
