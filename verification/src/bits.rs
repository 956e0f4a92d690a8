//! The mathematical model of bit strings.
//!
//! A packed buffer is a sequence of storage units, each holding 8 meaningful
//! bits, most significant first. This module defines the bit string denoted by
//! a unit, a buffer, a field value, a sequence of 0/1 markers and a binary
//! text, and proves the lemmas that connect the numeric and the bit-string
//! views.

use vstd::prelude::*;

verus! {

/// True when bit `k` of `v` is set, counting from the least significant end.
pub open spec fn bit_at(v: u32, k: u32) -> bool {
    ((v >> k) & 1) == 1
}

/// 2^n.
pub open spec fn pow2(n: nat) -> int
    decreases n,
{
    if n == 0 {
        1
    } else {
        2 * pow2((n - 1) as nat)
    }
}

/// The low `w` bits of `v`, most significant first.
pub open spec fn low_bits(v: u32, w: int) -> Seq<bool>
    recommends
        0 <= w <= 32,
{
    Seq::new(w as nat, |i: int| bit_at(v, (w - 1 - i) as u32))
}

/// The 8 meaningful bits of one storage unit, most significant first.
pub open spec fn unit_bits(u: u32) -> Seq<bool> {
    Seq::new(8, |i: int| bit_at(u, (7 - i) as u32))
}

/// Every meaningful bit of a buffer, in left-to-right reading order.
pub open spec fn buffer_bits(buf: Seq<u32>) -> Seq<bool> {
    Seq::new(buf.len() * 8, |i: int| bit_at(buf[i / 8], (7 - (i % 8)) as u32))
}

/// The numeric value of a bit string read most-significant-bit first.
pub open spec fn bits_value(bs: Seq<bool>) -> int
    decreases bs.len(),
{
    if bs.len() == 0 {
        0
    } else {
        2 * bits_value(bs.drop_last()) + (if bs.last() {
            1int
        } else {
            0int
        })
    }
}

/// A sequence of 0/1 markers as a bit string.
pub open spec fn byte_bits(s: Seq<u8>) -> Seq<bool> {
    Seq::new(s.len(), |i: int| s[i] == 1)
}

/// A binary text as a bit string.
pub open spec fn char_bits(s: Seq<char>) -> Seq<bool> {
    Seq::new(s.len(), |i: int| s[i] == '1')
}

/// A bit string as binary digit characters.
pub open spec fn bits_to_chars(bs: Seq<bool>) -> Seq<char> {
    Seq::new(bs.len(), |i: int| if bs[i] {
        '1'
    } else {
        '0'
    })
}

/// `bits` followed by zero padding out to `units` whole storage units.
pub open spec fn padded(bits: Seq<bool>, units: int) -> Seq<bool>
    recommends
        0 <= units,
        bits.len() <= 8 * units,
{
    bits + Seq::new((8 * units - bits.len()) as nat, |i: int| false)
}

/// A flat bit position `8 * b + o` lies in unit `b` at offset `o`.
pub proof fn lemma_bit_index(b: int, o: int)
    requires
        0 <= b,
        0 <= o < 8,
    ensures
        (8 * b + o) / 8 == b,
        (8 * b + o) % 8 == o,
{
    vstd::arithmetic::div_mod::lemma_fundamental_div_mod_converse(8 * b + o, 8, b, o);
}

/// A flat bit position decomposes into a unit index and an offset.
pub proof fn lemma_bit_decompose(p: int)
    requires
        0 <= p,
    ensures
        p == 8 * (p / 8) + p % 8,
        0 <= p % 8 < 8,
        0 <= p / 8,
{
    vstd::arithmetic::div_mod::lemma_fundamental_div_mod(p, 8);
    vstd::arithmetic::div_mod::lemma_mod_bound(p, 8);
    vstd::arithmetic::div_mod::lemma_div_pos_is_pos(p, 8);
}

pub proof fn lemma_pow2_pos(n: nat)
    ensures
        pow2(n) >= 1,
    decreases n,
{
    if n > 0 {
        lemma_pow2_pos((n - 1) as nat);
    }
}

pub proof fn lemma_pow2_le(a: nat, b: nat)
    requires
        a <= b,
    ensures
        pow2(a) <= pow2(b),
    decreases b,
{
    if a < b {
        lemma_pow2_le(a, (b - 1) as nat);
        lemma_pow2_pos((b - 1) as nat);
    }
}

/// Appending a bit doubles the value and adds the bit.
proof fn lemma_double_bit(v: u32, b: u32, d: u32, k: u32)
    by (bit_vector)
    requires
        v < 0x8000_0000,
        b <= 1,
        d == 2 * v + b,
        k < 32,
    ensures
        1 <= k ==> bit_at(d, k) == bit_at(v, (k - 1) as u32),
        bit_at(d, 0) == (b == 1),
{
}

/// The value of a bit string is bounded by 2^length.
pub proof fn lemma_bits_value_bound(bs: Seq<bool>)
    ensures
        0 <= bits_value(bs) < pow2(bs.len()),
    decreases bs.len(),
{
    if bs.len() > 0 {
        lemma_bits_value_bound(bs.drop_last());
    }
}

pub proof fn lemma_pow2_32()
    ensures
        pow2(31) == 0x8000_0000,
        pow2(32) == 0x1_0000_0000,
{
    reveal_with_fuel(pow2, 33);
}

/// Bit `len - 1 - j` of the value of a bit string is the string's bit `j`.
pub proof fn lemma_bits_value_bits(bs: Seq<bool>)
    requires
        bs.len() <= 32,
    ensures
        forall|j: int|
            0 <= j < bs.len() ==> #[trigger] bit_at(
                bits_value(bs) as u32,
                (bs.len() - 1 - j) as u32,
            ) == bs[j],
    decreases bs.len(),
{
    if bs.len() > 0 {
        let front = bs.drop_last();
        let v = bits_value(front);
        let b: u32 = if bs.last() {
            1
        } else {
            0
        };
        let d = bits_value(bs);
        lemma_bits_value_bound(front);
        lemma_bits_value_bound(bs);
        lemma_pow2_le(front.len(), 31);
        lemma_pow2_32();
        lemma_bits_value_bits(front);
        assert(d == 2 * v + b);
        assert forall|j: int| 0 <= j < bs.len() implies #[trigger] bit_at(
            d as u32,
            (bs.len() - 1 - j) as u32,
        ) == bs[j] by {
            let k = (bs.len() - 1 - j) as u32;
            lemma_double_bit(v as u32, b, d as u32, k);
            if j < bs.len() - 1 {
                assert(bit_at(v as u32, (front.len() - 1 - j) as u32) == front[j]);
            }
        }
    }
}

/// The low bits of the value of a bit string recover the string.
pub proof fn lemma_low_bits_of_value(bs: Seq<bool>)
    requires
        bs.len() <= 32,
    ensures
        low_bits(bits_value(bs) as u32, bs.len() as int) == bs,
{
    lemma_bits_value_bits(bs);
    assert(low_bits(bits_value(bs) as u32, bs.len() as int) =~= bs);
}

} // verus!
