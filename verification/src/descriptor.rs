//! Field descriptors: one variable-width field, as a bit width and a value.

use vstd::prelude::*;

use crate::bits::bits_value;
use crate::bits::byte_bits;
use crate::bits::char_bits;
use crate::bits::low_bits;
use crate::bits::lemma_pow2_le;
use crate::bits::lemma_pow2_32;
use crate::bits::pow2;

verus! {

/// The one error this library surfaces: a textual field held a character that
/// is not a binary digit.
#[derive(Clone, Copy, Debug, PartialEq, Eq, Structural)]
pub enum BittyError {
    InvalidInput,
}

impl BittyError {
    /// A human-readable description of the error.
    pub fn message(&self) -> (s: String)
        ensures
            s@ == "invalid bit input given"@,
    {
        "invalid bit input given".to_owned()
    }
}

/// One field to encode: `value` holds the field's bits right-justified, and
/// `bits_len` says how many of its low bits are meaningful.
pub struct BitDescriptor {
    pub bits_len: usize,
    pub value: u32,
}

impl BitDescriptor {
    /// The bit string this descriptor stands for: the low `bits_len` bits of
    /// `value`, most significant first.
    pub open spec fn spec_bits(&self) -> Seq<bool> {
        low_bits(self.value, self.bits_len as int)
    }

    /// Builds a descriptor from a sequence of 0/1 markers, most significant
    /// first.
    pub fn from_bits(bits: Vec<u8>) -> (d: Self)
        requires
            bits@.len() <= 32,
            forall|i: int| 0 <= i < bits@.len() ==> bits@[i] <= 1,
        ensures
            d.bits_len == bits@.len(),
            d.value == bits_value(byte_bits(bits@)),
            d.spec_bits() == byte_bits(bits@),
    {
        let value = convert_to_u32(&bits);
        proof {
            crate::bits::lemma_low_bits_of_value(byte_bits(bits@));
        }
        Self { bits_len: bits.len(), value }
    }

    /// Builds a descriptor from a binary text such as `"101"`. Fails with
    /// `BittyError::InvalidInput` exactly when some character is not `'0'` or
    /// `'1'`, and succeeds on every all-binary text.
    pub fn from_text(s: &str) -> (r: Result<Self, BittyError>)
        requires
            s@.len() <= 32,
        ensures
            match r {
                Ok(d) => {
                    &&& forall|i: int| 0 <= i < s@.len() ==> s@[i] == '0' || s@[i] == '1'
                    &&& d.bits_len == s@.len()
                    &&& d.value == bits_value(char_bits(s@))
                    &&& d.spec_bits() == char_bits(s@)
                },
                Err(e) => {
                    &&& exists|i: int| 0 <= i < s@.len() && s@[i] != '0' && s@[i] != '1'
                    &&& e == BittyError::InvalidInput
                },
            },
    {
        let len = s.unicode_len();
        let mut result: u32 = 0;
        let mut i: usize = 0;
        while i < len
            invariant
                s@.len() == len <= 32,
                i <= len,
                forall|j: int| 0 <= j < i ==> s@[j] == '0' || s@[j] == '1',
                result == bits_value(char_bits(s@.take(i as int))),
                result < pow2(i as nat),
            decreases len - i,
        {
            let c = s.get_char(i);
            proof {
                lemma_pow2_le(i as nat, 31);
                lemma_pow2_32();
                assert(char_bits(s@.take(i + 1)).drop_last() =~= char_bits(s@.take(i as int)));
                assert(char_bits(s@.take(i + 1)).last() == (s@[i as int] == '1'));
            }
            if c == '0' {
                result = result * 2;
            } else if c == '1' {
                result = result * 2 + 1;
            } else {
                return Err(BittyError::InvalidInput);
            }
            i += 1;
        }
        proof {
            assert(s@.take(len as int) =~= s@);
            crate::bits::lemma_low_bits_of_value(char_bits(s@));
        }
        Ok(Self { bits_len: len, value: result })
    }
}

/// Reads a sequence of 0/1 markers as a big-endian binary number.
pub fn convert_to_u32(bits: &Vec<u8>) -> (result: u32)
    requires
        bits@.len() <= 32,
        forall|i: int| 0 <= i < bits@.len() ==> bits@[i] <= 1,
    ensures
        result == bits_value(byte_bits(bits@)),
{
    let mut result: u32 = 0;
    let mut i: usize = 0;
    while i < bits.len()
        invariant
            bits@.len() <= 32,
            i <= bits@.len(),
            forall|j: int| 0 <= j < bits@.len() ==> bits@[j] <= 1,
            result == bits_value(byte_bits(bits@.take(i as int))),
            result < pow2(i as nat),
        decreases bits@.len() - i,
    {
        proof {
            lemma_pow2_le(i as nat, 31);
            lemma_pow2_32();
            assert(byte_bits(bits@.take(i + 1)).drop_last() =~= byte_bits(bits@.take(i as int)));
            assert(byte_bits(bits@.take(i + 1)).last() == (bits@[i as int] == 1));
        }
        let b = bits[i];
        if b == 1 {
            result = result * 2 + 1;
        } else {
            result = result * 2;
        }
        i += 1;
    }
    proof {
        assert(bits@.take(bits@.len() as int) =~= bits@);
    }
    result
}

} // verus!
