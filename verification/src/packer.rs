//! The packer: sizes a buffer and writes each descriptor's bits into it at
//! the correct bit offset, most significant bit first, left to right.

use vstd::prelude::*;
use vstd::string::StringExecFns;

use crate::bits::bit_at;
use crate::bits::bits_to_chars;
use crate::bits::bits_value;
use crate::bits::buffer_bits;
use crate::bits::char_bits;
use crate::bits::lemma_bit_decompose;
use crate::bits::padded;
use crate::bits::unit_bits;
use crate::descriptor::BitDescriptor;

verus! {

broadcast use vstd::string::group_string_axioms;

/// The total bit width of a sequence of descriptors.
pub open spec fn total_bits(descs: Seq<BitDescriptor>) -> int
    decreases descs.len(),
{
    if descs.len() == 0 {
        0
    } else {
        total_bits(descs.drop_last()) + descs.last().bits_len
    }
}

/// The concatenation of the descriptors' bit strings, in order.
pub open spec fn all_bits(descs: Seq<BitDescriptor>) -> Seq<bool>
    decreases descs.len(),
{
    if descs.len() == 0 {
        Seq::empty()
    } else {
        all_bits(descs.drop_last()) + descs.last().spec_bits()
    }
}

/// The concatenation of binary texts, as one bit string.
pub open spec fn texts_bits(texts: Seq<Seq<char>>) -> Seq<bool>
    decreases texts.len(),
{
    if texts.len() == 0 {
        Seq::empty()
    } else {
        texts_bits(texts.drop_last()) + char_bits(texts.last())
    }
}

pub proof fn lemma_bits_len(descs: Seq<BitDescriptor>)
    ensures
        0 <= total_bits(descs),
        all_bits(descs).len() == total_bits(descs),
    decreases descs.len(),
{
    if descs.len() > 0 {
        lemma_bits_len(descs.drop_last());
    }
}

/// Taking one more descriptor appends its bits.
pub proof fn lemma_take_step(descs: Seq<BitDescriptor>, i: int)
    requires
        0 <= i < descs.len(),
    ensures
        total_bits(descs.take(i + 1)) == total_bits(descs.take(i)) + descs[i].bits_len,
        all_bits(descs.take(i + 1)) == all_bits(descs.take(i)) + descs[i].spec_bits(),
{
    assert(descs.take(i + 1).drop_last() =~= descs.take(i));
    assert(descs.take(i + 1).last() == descs[i]);
}

/// The bits of a prefix of the descriptors are a prefix of all the bits.
pub proof fn lemma_prefix(descs: Seq<BitDescriptor>, i: int)
    requires
        0 <= i <= descs.len(),
    ensures
        0 <= total_bits(descs.take(i)) <= total_bits(descs),
        all_bits(descs.take(i)).len() == total_bits(descs.take(i)),
        forall|p: int|
            0 <= p < total_bits(descs.take(i)) ==> all_bits(descs)[p] == #[trigger] all_bits(
                descs.take(i),
            )[p],
    decreases descs.len() - i,
{
    lemma_bits_len(descs.take(i));
    if i == descs.len() {
        assert(descs.take(i) =~= descs);
    } else {
        lemma_take_step(descs, i);
        lemma_prefix(descs, i + 1);
        lemma_bits_len(descs.take(i + 1));
        assert forall|p: int| 0 <= p < total_bits(descs.take(i)) implies all_bits(descs)[p]
            == #[trigger] all_bits(descs.take(i))[p] by {
            assert(all_bits(descs)[p] == all_bits(descs.take(i + 1))[p]);
            assert(all_bits(descs.take(i + 1))[p] == (all_bits(descs.take(i))
                + descs[i].spec_bits())[p]);
        }
    }
}

/// Shifting 1 left by at most 8 stays between 1 and 256.
proof fn lemma_one_shl(n: u32)
    by (bit_vector)
    requires
        n <= 8,
    ensures
        1u32 <= (1u32 << n),
        (1u32 << n) <= 0x100,
{
}

/// Law: the computed size is the ceiling of the bit total over 8: its units
/// cover every bit, no smaller unit count does (8 units cover at most 7 bits
/// of slack), and an exact multiple of 8 gains no spurious extra unit.
pub proof fn lemma_size_is_ceil(t: int)
    requires
        0 <= t,
    ensures
        0 <= (t + 7) / 8,
        t <= 8 * ((t + 7) / 8),
        8 * ((t + 7) / 8) <= t + 7,
        t % 8 == 0 ==> (t + 7) / 8 == t / 8,
{
    vstd::arithmetic::div_mod::lemma_fundamental_div_mod(t + 7, 8);
    vstd::arithmetic::div_mod::lemma_mod_bound(t + 7, 8);
    vstd::arithmetic::div_mod::lemma_div_pos_is_pos(t + 7, 8);
    if t % 8 == 0 {
        vstd::arithmetic::div_mod::lemma_fundamental_div_mod(t, 8);
        vstd::arithmetic::div_mod::lemma_fundamental_div_mod_converse(t + 7, 8, t / 8, 7);
    }
}

/// Law: a buffer that packs descriptors built from binary texts holds, bit
/// for bit, the concatenation of those texts, zero-padded on the right to
/// whole storage units.
pub proof fn lemma_pack_round_trip(
    texts: Seq<Seq<char>>,
    descs: Seq<BitDescriptor>,
    buffer: Seq<u32>,
)
    requires
        descs.len() == texts.len(),
        forall|i: int| 0 <= i < texts.len() ==> #[trigger] texts[i].len() <= 32,
        forall|i: int|
            0 <= i < texts.len() ==> (#[trigger] descs[i]).bits_len == texts[i].len()
                && descs[i].value == bits_value(char_bits(texts[i])),
        buffer_bits(buffer) == padded(all_bits(descs), buffer.len() as int),
    ensures
        buffer_bits(buffer) == padded(texts_bits(texts), buffer.len() as int),
{
    lemma_all_bits_of_texts(texts, descs);
}

proof fn lemma_all_bits_of_texts(texts: Seq<Seq<char>>, descs: Seq<BitDescriptor>)
    requires
        descs.len() == texts.len(),
        forall|i: int| 0 <= i < texts.len() ==> #[trigger] texts[i].len() <= 32,
        forall|i: int|
            0 <= i < texts.len() ==> (#[trigger] descs[i]).bits_len == texts[i].len()
                && descs[i].value == bits_value(char_bits(texts[i])),
    ensures
        all_bits(descs) == texts_bits(texts),
    decreases texts.len(),
{
    if texts.len() == 0 {
        assert(all_bits(descs) =~= texts_bits(texts));
    } else {
        lemma_all_bits_of_texts(texts.drop_last(), descs.drop_last());
        let t = texts.last();
        let d = descs.last();
        crate::bits::lemma_bits_value_bound(char_bits(t));
        crate::bits::lemma_pow2_le(char_bits(t).len(), 32);
        crate::bits::lemma_pow2_32();
        crate::bits::lemma_low_bits_of_value(char_bits(t));
        assert(d.spec_bits() == char_bits(t));
    }
}

proof fn lemma_zero_bit(k: u32)
    by (bit_vector)
    ensures
        !bit_at(0u32, k),
{
}

/// Writing `n` bits that fit in the current unit: the `n` low bits of
/// `value` land at offset `off`, and every other bit of the unit is kept.
proof fn lemma_write_fits(u: u32, value: u32, n: u32, off: u32, k: u32)
    by (bit_vector)
    requires
        off < 8,
        0 < n,
        n + off <= 8,
        u < 0x100,
        k < 8,
    ensures
        ({
            let r = u | ((value & (((1u32 << n) - 1) as u32)) << (((8 - off) - n) as u32));
            &&& r < 0x100
            &&& (k < (8 - off) - n || 8 - off <= k) ==> bit_at(r, k) == bit_at(u, k)
            &&& ((8 - off) - n <= k && k < 8 - off) ==> bit_at(r, k) == (bit_at(u, k) || bit_at(
                value,
                ((k + off + n) - 8) as u32,
            ))
        }),
{
}

/// Writing the high slice of `n` remaining bits into the rest of the current
/// unit: the slice fills the unit from offset `off` to its end.
proof fn lemma_write_span(u: u32, value: u32, n: u32, off: u32, k: u32)
    by (bit_vector)
    requires
        off < 8,
        8 - off < n,
        n <= 32,
        u < 0x100,
        k < 8,
    ensures
        ({
            let r = u | ((value & ((((1u32 << ((8 - off) as u32)) - 1) as u32) << ((n - (8
                - off)) as u32))) >> ((n - (8 - off)) as u32));
            &&& r < 0x100
            &&& k < 8 - off ==> bit_at(r, k) == (bit_at(u, k) || bit_at(
                value,
                ((k + off + n) - 8) as u32,
            ))
            &&& 8 - off <= k ==> bit_at(r, k) == bit_at(u, k)
        }),
{
}

/// The packer. It owns its buffer while one `pack` call runs and hands it to
/// the caller when packing completes.
pub struct BitPacker {}

impl BitPacker {
    /// The least number of whole storage units that hold every descriptor's
    /// bits: the ceiling of the bit total over 8.
    pub fn compute_buffer_size(descriptors: &Vec<BitDescriptor>) -> (count: usize)
        requires
            total_bits(descriptors@) + 7 <= usize::MAX,
        ensures
            count == (total_bits(descriptors@) + 7) / 8,
    {
        let mut total: usize = 0;
        let mut i: usize = 0;
        proof {
            assert(descriptors@.take(0) =~= Seq::<BitDescriptor>::empty());
        }
        while i < descriptors.len()
            invariant
                i <= descriptors@.len(),
                total == total_bits(descriptors@.take(i as int)),
                total_bits(descriptors@) + 7 <= usize::MAX,
            decreases descriptors@.len() - i,
        {
            proof {
                lemma_take_step(descriptors@, i as int);
                lemma_prefix(descriptors@, i as int + 1);
            }
            total = total + descriptors[i].bits_len;
            i += 1;
        }
        proof {
            assert(descriptors@.take(descriptors@.len() as int) =~= descriptors@);
        }
        (total + 7) / 8
    }

    /// Packs the descriptors into a fresh buffer of exactly the computed
    /// size: the buffer's bits are the descriptors' bits in order, and the
    /// final unit is zero-padded on the right.
    pub fn pack(descriptors: Vec<BitDescriptor>) -> (buffer: Vec<u32>)
        requires
            forall|i: int| 0 <= i < descriptors@.len() ==> (#[trigger] descriptors@[i]).bits_len
                <= 32,
            total_bits(descriptors@) + 7 <= usize::MAX,
        ensures
            buffer@.len() == (total_bits(descriptors@) + 7) / 8,
            buffer_bits(buffer@) == padded(all_bits(descriptors@), buffer@.len() as int),
            forall|b: int| 0 <= b < buffer@.len() ==> buffer@[b] < 0x100,
    {
        proof {
            lemma_bits_len(descriptors@);
        }
        let buf_size = Self::compute_buffer_size(&descriptors);
        let mut buffer: Vec<u32> = Vec::new();
        while buffer.len() < buf_size
            invariant
                buffer@.len() <= buf_size,
                forall|i: int| 0 <= i < buffer@.len() ==> buffer@[i] == 0u32,
            decreases buf_size - buffer@.len(),
        {
            buffer.push(0u32);
        }
        proof {
            lemma_size_is_ceil(total_bits(descriptors@));
        }
        Self::pack_into_buffer(descriptors, buffer)
    }

    /// Writes each descriptor's bits into the zeroed buffer in order,
    /// most significant bit first, threading the cursor across units.
    pub fn pack_into_buffer(descriptors: Vec<BitDescriptor>, buffer: Vec<u32>) -> (out: Vec<u32>)
        requires
            forall|i: int| 0 <= i < descriptors@.len() ==> (#[trigger] descriptors@[i]).bits_len
                <= 32,
            total_bits(descriptors@) <= 8 * buffer@.len(),
            forall|i: int| 0 <= i < buffer@.len() ==> buffer@[i] == 0u32,
        ensures
            out@.len() == buffer@.len(),
            buffer_bits(out@) == padded(all_bits(descriptors@), buffer@.len() as int),
            forall|b: int| 0 <= b < out@.len() ==> out@[b] < 0x100,
    {
        let mut buffer = buffer;
        let n_units = buffer.len();
        let ghost ds = descriptors@;
        let ghost len_units: int = n_units as int;
        let mut byte_idx: usize = 0;
        let mut bit_idx: usize = 0;
        let mut d_i: usize = 0;
        proof {
            assert(ds.take(0) =~= Seq::<BitDescriptor>::empty());
            assert forall|p: int| 0 <= p < 8 * len_units implies !buffer_bits(buffer@)[p] by {
                lemma_bit_decompose(p);
                lemma_zero_bit((7 - (p % 8)) as u32);
            }
        }
        while d_i < descriptors.len()
            invariant
                ds == descriptors@,
                forall|i: int| 0 <= i < ds.len() ==> (#[trigger] ds[i]).bits_len <= 32,
                total_bits(ds) <= 8 * len_units,
                d_i <= ds.len(),
                buffer@.len() == len_units,
                len_units <= usize::MAX,
                bit_idx < 8,
                8 * byte_idx + bit_idx == total_bits(ds.take(d_i as int)),
                forall|p: int|
                    0 <= p < 8 * byte_idx + bit_idx ==> #[trigger] buffer_bits(buffer@)[p]
                        == all_bits(ds)[p],
                forall|p: int|
                    8 * byte_idx + bit_idx <= p < 8 * len_units ==> !(#[trigger] buffer_bits(
                        buffer@,
                    )[p]),
                forall|b: int| 0 <= b < len_units ==> #[trigger] buffer@[b] < 0x100,
            decreases ds.len() - d_i,
        {
            let ghost start = total_bits(ds.take(d_i as int));
            let value = descriptors[d_i].value;
            let w = descriptors[d_i].bits_len;
            let mut n_bits = w;
            proof {
                lemma_take_step(ds, d_i as int);
                lemma_prefix(ds, d_i as int + 1);
                lemma_bits_len(ds.take(d_i as int));
            }
            while n_bits > 0
                invariant
                    ds == descriptors@,
                    d_i < ds.len(),
                    value == ds[d_i as int].value,
                    w == ds[d_i as int].bits_len,
                    n_bits <= w <= 32,
                    buffer@.len() == len_units,
                    len_units <= usize::MAX,
                    bit_idx < 8,
                    start == total_bits(ds.take(d_i as int)),
                    0 <= start,
                    8 * byte_idx + bit_idx == start + (w - n_bits),
                    start + w <= 8 * len_units,
                    forall|p: int|
                        0 <= p < start ==> #[trigger] buffer_bits(buffer@)[p] == all_bits(ds)[p],
                    forall|j: int|
                        0 <= j < w - n_bits ==> #[trigger] buffer_bits(buffer@)[start + j]
                            == ds[d_i as int].spec_bits()[j],
                    forall|p: int|
                        start + (w - n_bits) <= p < 8 * len_units ==> !(#[trigger] buffer_bits(
                            buffer@,
                        )[p]),
                    forall|b: int| 0 <= b < len_units ==> #[trigger] buffer@[b] < 0x100,
                decreases n_bits,
            {
                let ghost prev = buffer@;
                let ghost b: int = byte_idx as int;
                let ghost off: int = bit_idx as int;
                let ghost pos: int = start + (w - n_bits);
                proof {
                    assert(8 * b <= pos < start + w <= 8 * len_units);
                }
                let u = buffer[byte_idx];
                if n_bits <= 8 - bit_idx {
                    let ghost n: int = n_bits as int;
                    proof {
                        lemma_one_shl(n_bits as u32);
                    }
                    let masked_value = value & ((1u32 << (n_bits as u32)) - 1);
                    let shift = ((8 - bit_idx) - n_bits) as u32;
                    let new_u = u | (masked_value << shift);
                    buffer[byte_idx] = new_u;
                    proof {
                        lemma_write_fits(u, value, n_bits as u32, bit_idx as u32, 0);
                        assert(buffer@ == prev.update(b, new_u));
                        assert forall|k: u32| k < 8 implies ((k < (8 - (bit_idx as u32)) - (
                        n_bits as u32) || 8 - (bit_idx as u32) <= k) ==> bit_at(new_u, k) == bit_at(
                            u,
                            k,
                        )) && (((8 - (bit_idx as u32)) - (n_bits as u32) <= k && k < 8 - (
                        bit_idx as u32)) ==> bit_at(new_u, k) == (bit_at(u, k) || bit_at(
                            value,
                            ((k + (bit_idx as u32) + (n_bits as u32)) - 8) as u32,
                        ))) by {
                            lemma_write_fits(u, value, n_bits as u32, bit_idx as u32, k);
                        }
                        assert forall|p: int| 0 <= p < 8 * len_units implies #[trigger] buffer_bits(
                            buffer@,
                        )[p] == (if pos <= p < pos + n {
                            ds[d_i as int].spec_bits()[(w - n_bits) + (p - pos)]
                        } else {
                            buffer_bits(prev)[p]
                        }) by {
                            lemma_bit_decompose(p);
                            let pb = p / 8;
                            let po = p % 8;
                            assert(pb < len_units);
                            if pb == b {
                                let k = (7 - po) as u32;
                                assert(p == 8 * b + po);
                                if pos <= p < pos + n {
                                    assert(off <= po < off + n);
                                    assert(buffer_bits(prev)[p] == bit_at(u, k));
                                    assert(!bit_at(u, k));
                                    assert(bit_at(new_u, k) == (bit_at(u, k) || bit_at(
                                        value,
                                        ((k + (bit_idx as u32) + (n_bits as u32)) - 8) as u32,
                                    )));
                                    assert(ds[d_i as int].spec_bits()[(w - n_bits) + (p - pos)]
                                        == bit_at(value, ((w - 1) - ((w - n_bits) + (p
                                        - pos))) as u32));
                                } else {
                                    assert(po < off || off + n <= po);
                                    assert(bit_at(new_u, k) == bit_at(u, k));
                                }
                            } else {
                                assert(buffer@[pb] == prev[pb]);
                            }
                        }
                    }
                    bit_idx = bit_idx + n_bits;
                    if bit_idx == 8 {
                        bit_idx = 0;
                        byte_idx = byte_idx + 1;
                    }
                    n_bits = 0;
                } else {
                    let rem = 8 - bit_idx;
                    let ghost n: int = n_bits as int;
                    proof {
                        lemma_one_shl(rem as u32);
                    }
                    let mask = ((1u32 << (rem as u32)) - 1) << ((n_bits - rem) as u32);
                    let new_u = u | ((value & mask) >> ((n_bits - rem) as u32));
                    buffer[byte_idx] = new_u;
                    proof {
                        lemma_write_span(u, value, n_bits as u32, bit_idx as u32, 0);
                        assert(buffer@ == prev.update(b, new_u));
                        assert forall|k: u32| k < 8 implies ((k < 8 - (bit_idx as u32)) ==> bit_at(
                            new_u,
                            k,
                        ) == (bit_at(u, k) || bit_at(
                            value,
                            ((k + (bit_idx as u32) + (n_bits as u32)) - 8) as u32,
                        ))) && ((8 - (bit_idx as u32) <= k) ==> bit_at(new_u, k) == bit_at(
                            u,
                            k,
                        )) by {
                            lemma_write_span(u, value, n_bits as u32, bit_idx as u32, k);
                        }
                        assert forall|p: int| 0 <= p < 8 * len_units implies #[trigger] buffer_bits(
                            buffer@,
                        )[p] == (if pos <= p < pos + (8 - off) {
                            ds[d_i as int].spec_bits()[(w - n_bits) + (p - pos)]
                        } else {
                            buffer_bits(prev)[p]
                        }) by {
                            lemma_bit_decompose(p);
                            let pb = p / 8;
                            let po = p % 8;
                            assert(pb < len_units);
                            if pb == b {
                                let k = (7 - po) as u32;
                                assert(p == 8 * b + po);
                                if pos <= p < pos + (8 - off) {
                                    assert(off <= po);
                                    assert(buffer_bits(prev)[p] == bit_at(u, k));
                                    assert(!bit_at(u, k));
                                    assert(bit_at(new_u, k) == (bit_at(u, k) || bit_at(
                                        value,
                                        ((k + (bit_idx as u32) + (n_bits as u32)) - 8) as u32,
                                    )));
                                    assert(ds[d_i as int].spec_bits()[(w - n_bits) + (p - pos)]
                                        == bit_at(value, ((w - 1) - ((w - n_bits) + (p
                                        - pos))) as u32));
                                } else {
                                    assert(po < off);
                                    assert(bit_at(new_u, k) == bit_at(u, k));
                                }
                            } else {
                                assert(buffer@[pb] == prev[pb]);
                            }
                        }
                    }
                    n_bits = n_bits - rem;
                    bit_idx = 0;
                    byte_idx = byte_idx + 1;
                }
            }
            proof {
                assert forall|p: int| 0 <= p < start + w implies #[trigger] buffer_bits(buffer@)[p]
                    == all_bits(ds)[p] by {
                    if start <= p {
                        assert(buffer_bits(buffer@)[start + (p - start)] == ds[d_i
                            as int].spec_bits()[p - start]);
                        assert(all_bits(ds.take(d_i as int + 1)) == all_bits(ds.take(d_i as int))
                            + ds[d_i as int].spec_bits());
                        assert(all_bits(ds)[p] == all_bits(ds.take(d_i as int + 1))[p]);
                    }
                }
            }
            d_i += 1;
        }
        proof {
            assert(ds.take(ds.len() as int) =~= ds);
            lemma_bits_len(ds);
            assert(buffer_bits(buffer@) =~= padded(all_bits(ds), len_units));
        }
        buffer
    }
}

/// The eight meaningful bits of one storage unit as binary digit characters,
/// most significant first.
pub fn unit_text(unit: u32) -> (s: String)
    ensures
        s@ == bits_to_chars(unit_bits(unit)),
{
    let mut s = String::new();
    let mut i: usize = 0;
    while i < 8
        invariant
            i <= 8,
            s@ == bits_to_chars(unit_bits(unit).take(i as int)),
        decreases 8 - i,
    {
        let bit = (unit >> ((7 - i) as u32)) & 1;
        proof {
            reveal_strlit("0");
            reveal_strlit("1");
            assert(bits_to_chars(unit_bits(unit).take(i + 1)) =~= bits_to_chars(
                unit_bits(unit).take(i as int),
            ) + (if bit_at(unit, (7 - i) as u32) {
                "1"@
            } else {
                "0"@
            }));
        }
        if bit == 1 {
            s.append("1");
        } else {
            s.append("0");
        }
        i += 1;
    }
    proof {
        assert(unit_bits(unit).take(8) =~= unit_bits(unit));
    }
    s
}

/// One line of text per storage unit: the buffer's binary printout.
pub fn buffer_text(buffer: &Vec<u32>) -> (lines: Vec<String>)
    ensures
        lines@.len() == buffer@.len(),
        forall|i: int|
            0 <= i < buffer@.len() ==> #[trigger] lines@[i]@ == bits_to_chars(
                unit_bits(buffer@[i]),
            ),
{
    let mut lines: Vec<String> = Vec::new();
    let mut i: usize = 0;
    while i < buffer.len()
        invariant
            i == lines@.len(),
            i <= buffer@.len(),
            forall|j: int|
                0 <= j < i ==> #[trigger] lines@[j]@ == bits_to_chars(unit_bits(buffer@[j])),
        decreases buffer@.len() - i,
    {
        lines.push(unit_text(buffer[i]));
        i += 1;
    }
    lines
}

} // verus!
