//! The streaming decoder: walks a packed buffer one bit at a time, growing a
//! textual bit pattern, and asks a caller-supplied classifier after every bit
//! whether the pattern so far is a complete, recognized field.

use vstd::prelude::*;
use vstd::string::StringExecFns;

use crate::bits::bit_at;
use crate::bits::bits_to_chars;
use crate::bits::buffer_bits;
use crate::bits::lemma_bit_index;

verus! {

broadcast use vstd::string::group_string_axioms;

/// The classifier can return `Some(v)` on the pattern spelling `bs`.
pub open spec fn classifier_accepts<T, F: Fn(&str) -> Option<T>>(
    f: F,
    bs: Seq<bool>,
    v: T,
) -> bool {
    exists|s: &str| s@ == bits_to_chars(bs) && call_ensures(f, (s,), Some(v))
}

/// The classifier can return `None` on the pattern spelling `bs`.
pub open spec fn classifier_declines<T, F: Fn(&str) -> Option<T>>(f: F, bs: Seq<bool>) -> bool {
    exists|s: &str| s@ == bits_to_chars(bs) && call_ensures(f, (s,), Option::<T>::None)
}

/// A forward-only, single-pass decoder over a packed buffer. The cursor is
/// the pair of a unit index and a bit offset within that unit; it advances by
/// exactly one bit per step.
#[verifier::reject_recursive_types(T)]
pub struct UnpackItr<T, F: Fn(&str) -> Option<T>> {
    pub bit_idx: usize,
    pub byte_idx: usize,
    pub buffer: Vec<u32>,
    pub compare_fn: F,
}

impl<T, F: Fn(&str) -> Option<T>> UnpackItr<T, F> {
    /// The cursor as a flat bit position into the buffer's bits.
    pub open spec fn pos(&self) -> int {
        8 * self.byte_idx + self.bit_idx
    }

    /// Well-formed state: the offset stays within a unit, the cursor within
    /// the buffer, and the classifier accepts any pattern text.
    pub open spec fn wf(&self) -> bool {
        &&& self.bit_idx < 8
        &&& self.byte_idx <= self.buffer@.len()
        &&& (self.byte_idx == self.buffer@.len() ==> self.bit_idx == 0)
        &&& forall|s: &str| #[trigger] call_requires(self.compare_fn, (s,))
    }

    /// A decoder at the start of `buffer`, with an empty pattern.
    pub fn new(buffer: Vec<u32>, compare_fn: F) -> (it: Self)
        requires
            forall|s: &str| #[trigger] call_requires(compare_fn, (s,)),
        ensures
            it.wf(),
            it.bit_idx == 0,
            it.byte_idx == 0,
            it.buffer@ == buffer@,
            it.compare_fn == compare_fn,
    {
        Self { bit_idx: 0, byte_idx: 0, buffer, compare_fn }
    }

    /// One decode step: reads bits from the cursor on, probing the classifier
    /// after every bit. Returns the first recognized value, or `None` when
    /// the buffer is exhausted first; every shorter probe was declined. After
    /// `None` the decoder is exhausted: the cursor sits at the buffer's end.
    pub fn next(&mut self) -> (r: Option<T>)
        requires
            old(self).wf(),
        ensures
            final(self).wf(),
            final(self).buffer@ == old(self).buffer@,
            final(self).compare_fn == old(self).compare_fn,
            old(self).pos() <= final(self).pos() <= 8 * old(self).buffer@.len(),
            match r {
                Some(v) => {
                    &&& old(self).pos() < final(self).pos()
                    &&& classifier_accepts(
                        old(self).compare_fn,
                        buffer_bits(old(self).buffer@).subrange(old(self).pos(), final(self).pos()),
                        v,
                    )
                    &&& forall|j: int|
                        old(self).pos() < j < final(self).pos() ==> classifier_declines(
                            old(self).compare_fn,
                            #[trigger] buffer_bits(old(self).buffer@).subrange(old(self).pos(), j),
                        )
                },
                None => {
                    &&& final(self).pos() == 8 * old(self).buffer@.len()
                    &&& final(self).byte_idx == old(self).buffer@.len()
                    &&& final(self).bit_idx == 0
                    &&& forall|j: int|
                        old(self).pos() < j <= 8 * old(self).buffer@.len() ==> classifier_declines(
                            old(self).compare_fn,
                            #[trigger] buffer_bits(old(self).buffer@).subrange(old(self).pos(), j),
                        )
                },
            },
    {
        let mut pattern = String::new();
        let ghost start = old(self).pos();
        while self.byte_idx < self.buffer.len()
            invariant
                self.wf(),
                self.buffer@ == old(self).buffer@,
                self.compare_fn == old(self).compare_fn,
                start == old(self).pos(),
                0 <= start,
                start <= self.pos() <= 8 * self.buffer@.len(),
                pattern@ == bits_to_chars(buffer_bits(self.buffer@).subrange(start, self.pos())),
                forall|j: int|
                    start < j <= self.pos() ==> classifier_declines(
                        self.compare_fn,
                        #[trigger] buffer_bits(self.buffer@).subrange(start, j),
                    ),
            decreases 8 * self.buffer@.len() - self.pos(),
        {
            let ghost cur = self.pos();
            let u = self.buffer[self.byte_idx];
            let shift = (7 - self.bit_idx) as u32;
            let bit = (u >> shift) & 1;
            proof {
                reveal_strlit("0");
                reveal_strlit("1");
                lemma_bit_index(self.byte_idx as int, self.bit_idx as int);
                assert(buffer_bits(self.buffer@)[cur] == bit_at(u, shift));
                assert(bits_to_chars(buffer_bits(self.buffer@).subrange(start, cur + 1))
                    =~= bits_to_chars(buffer_bits(self.buffer@).subrange(start, cur)) + (if bit_at(
                    u,
                    shift,
                ) {
                    "1"@
                } else {
                    "0"@
                }));
            }
            if bit == 1 {
                pattern.append("1");
            } else {
                pattern.append("0");
            }
            self.bit_idx += 1;
            if self.bit_idx == 8 {
                self.bit_idx = 0;
                self.byte_idx += 1;
            }
            let probe = (self.compare_fn)(pattern.as_str());
            match probe {
                Some(result) => {
                    return Some(result);
                },
                None => {},
            }
        }
        None
    }
}

} // verus!
