//! The bit-vector type: representation, construction and bit addressing.
use vstd::prelude::*;
use vstd::arithmetic::power2::{pow2, lemma_pow2_unfold, lemma_pow2_pos, lemma2_to64};
use vstd::arithmetic::div_mod::{lemma_div_denominator, lemma_small_mod,
    lemma_mod_multiples_vanish};
use crate::model::{nth_bit, bits_of, twos_bits, lemma_twos_bits_index};

verus! {

/// 1 for a set bit, 0 for a clear one.
pub fn bit(b: bool) -> (result: usize)
    ensures
        result == if b {
            1int
        } else {
            0int
        },
{
    if b {
        1
    } else {
        0
    }
}

/// The ways a construction can fail.
#[derive(Debug, Copy, Clone)]
pub enum BitsError {
    /// The given input string could not be parsed.
    InvalidInputString,
    /// The bit widths of the arguments are not equal (expected, found).
    BitWidthMismatch { expected: usize, found: usize },
    /// The provided bit number is outside the bounds of this value.
    BitIndexOutOfRange,
}

/// A generically-sized bit vector, with support for accurate bitwise
/// arithmetic including overflows and handling signed vs unsigned arguments
/// and two's-complement conversions. Bit 0 is the most significant bit.
#[derive(Debug, Copy, Clone)]
pub struct Bits<const SIZE: usize>(pub [bool; SIZE]);

impl<const SIZE: usize> View for Bits<SIZE> {
    type V = Seq<bool>;

    open spec fn view(&self) -> Seq<bool> {
        self.0@
    }
}

impl<const SIZE: usize> Bits<SIZE> {
    /// Create a new `Bits` with the given size, initialized to zero.
    pub fn new() -> (result: Self)
        ensures
            result@ == Seq::new(SIZE as nat, |i: int| false),
    {
        let result = Bits(vstd::array::array_fill_for_copy_types(false));
        proof {
            vstd::array::axiom_spec_array_fill_for_copy_type::<bool, SIZE>(false);
            assert(result@ =~= Seq::new(SIZE as nat, |i: int| false));
        }
        result
    }

    /// Create a new `Bits` by parsing the provided signed integer.
    ///
    /// If the `Bits` constructed has fewer bits than an `i32` then the given
    /// value is truncated to fit. If it has more bits than an `i32` then the
    /// given value is sign-extended to match.
    pub fn from_signed(x: i32) -> (result: Self)
        ensures
            result@ == twos_bits(x as int, SIZE as nat),
    {
        proof {
            lemma2_to64();
        }
        let neg = x < 0;
        let ux: u32 = if x >= 0 {
            x as u32
        } else {
            ((x as i64) + 0x1_0000_0000i64) as u32
        };
        proof {
            if x >= 0 {
                lemma_small_mod(x as nat, pow2(32));
            } else {
                lemma_mod_multiples_vanish(1, x as int, pow2(32) as int);
                lemma_small_mod((x + pow2(32)) as nat, pow2(32));
            }
            assert(ux as nat == ((x as int) % (pow2(32) as int)) as nat);
        }
        let mut result = Bits::new();
        let mut cur: u32 = ux;
        let mut i: usize = 0;
        while i < SIZE
            invariant
                i <= SIZE,
                i <= 32 ==> cur as nat == (ux as nat) / pow2(i as nat),
                result@.len() == SIZE,
                forall|j: int|
                    0 <= j < SIZE ==> result@[j] == (SIZE - 1 - j < i && (if SIZE - 1 - j < 32 {
                        nth_bit(ux as nat, (SIZE - 1 - j) as nat)
                    } else {
                        neg
                    })),
            decreases SIZE - i,
        {
            let b: bool = if i < 32 {
                cur % 2 == 1
            } else {
                neg
            };
            proof {
                if i < 32 {
                    assert(nth_bit(ux as nat, i as nat) == (cur % 2 == 1));
                }
            }
            result.0[SIZE - 1 - i] = b;
            if i < 32 {
                proof {
                    lemma_pow2_pos(i as nat);
                    lemma_div_denominator(ux as int, pow2(i as nat) as int, 2);
                    lemma_pow2_unfold((i + 1) as nat);
                    assert(pow2(i as nat) * 2 == 2 * pow2(i as nat)) by {
                        vstd::arithmetic::mul::lemma_mul_is_commutative(pow2(i as nat) as int, 2);
                    }
                }
                cur = cur / 2;
            }
            i = i + 1;
        }
        proof {
            let tb = twos_bits(x as int, SIZE as nat);
            assert forall|j: int| 0 <= j < SIZE implies result@[j] == tb[j] by {
                lemma_twos_bits_index(x as int, SIZE as nat, (SIZE - 1 - j) as nat);
            }
            assert(result@ =~= tb);
        }
        result
    }

    /// Create a new `Bits` by parsing the provided unsigned integer.
    ///
    /// If the `Bits` constructed has fewer bits than a `u32` then the given
    /// value is truncated to fit. If it has more bits than a `u32` then the
    /// given value is padded with zeros to match.
    pub fn from_unsigned(x: u32) -> (result: Self)
        ensures
            result@ == bits_of(x as nat, SIZE as nat),
    {
        proof {
            lemma2_to64();
        }
        let mut result = Bits::new();
        let mut cur: u32 = x;
        let mut i: usize = 0;
        while i < SIZE
            invariant
                i <= SIZE,
                cur as nat == (x as nat) / pow2(i as nat),
                result@.len() == SIZE,
                forall|j: int|
                    0 <= j < SIZE ==> result@[j] == (SIZE - 1 - j < i && nth_bit(
                        x as nat,
                        (SIZE - 1 - j) as nat,
                    )),
            decreases SIZE - i,
        {
            let b = cur % 2 == 1;
            proof {
                assert(nth_bit(x as nat, i as nat) == b);
            }
            result.0[SIZE - 1 - i] = b;
            proof {
                lemma_pow2_pos(i as nat);
                lemma_div_denominator(x as int, pow2(i as nat) as int, 2);
                lemma_pow2_unfold((i + 1) as nat);
                assert(pow2(i as nat) * 2 == 2 * pow2(i as nat)) by {
                    vstd::arithmetic::mul::lemma_mul_is_commutative(pow2(i as nat) as int, 2);
                }
            }
            cur = cur / 2;
            i = i + 1;
        }
        proof {
            assert(result@ =~= bits_of(x as nat, SIZE as nat));
        }
        result
    }

    /// Create a new `Bits` from the given slice.
    ///
    /// This function requires that the slice width and the `Bits` width are
    /// identical; otherwise it fails with a width mismatch.
    pub fn from_slice(slice: &[bool]) -> (result: Result<Self, BitsError>)
        ensures
            slice@.len() == SIZE ==> (result matches Ok(b) && b@ == slice@),
            slice@.len() != SIZE ==> (result matches Err(e) && e == (BitsError::BitWidthMismatch {
                expected: SIZE,
                found: slice.len(),
            })),
    {
        if slice.len() != SIZE {
            return Err(BitsError::BitWidthMismatch { expected: SIZE, found: slice.len() });
        }
        let mut copied = Bits::new();
        let mut i: usize = 0;
        while i < SIZE
            invariant
                i <= SIZE,
                slice@.len() == SIZE,
                copied@.len() == SIZE,
                forall|j: int| 0 <= j < i ==> copied@[j] == slice@[j],
            decreases SIZE - i,
        {
            copied.0[i] = slice[i];
            i = i + 1;
        }
        proof {
            assert(copied@ =~= slice@);
        }
        Ok(copied)
    }

    /// Create a new `Bits` from an inclusive `hi:lo` bit range of the given
    /// slice, with both positions counted from the least significant end
    /// (hardware convention: position 0 is the last element of the slice).
    ///
    /// The positions are normalized so their order does not matter. The call
    /// fails with an out-of-range error if the higher position lies outside
    /// the slice, and with a width mismatch if the range's width is not the
    /// width of the `Bits` constructed.
    pub fn from_reverse_index(slice: &[bool], hi: usize, lo: usize) -> (result: Result<
        Self,
        BitsError,
    >)
        ensures
            ({
                let high = if hi >= lo {
                    hi as int
                } else {
                    lo as int
                };
                let low = if hi >= lo {
                    lo as int
                } else {
                    hi as int
                };
                let width = high - low + 1;
                &&& high >= slice@.len() ==> (result matches Err(e) && e
                    == BitsError::BitIndexOutOfRange)
                &&& high < slice@.len() && width != SIZE ==> (result matches Err(e) && e == (
                BitsError::BitWidthMismatch { expected: SIZE, found: width as usize }))
                &&& high < slice@.len() && width == SIZE ==> (result matches Ok(b) && b@
                    == slice@.subrange(slice@.len() - high - 1, slice@.len() - low))
            }),
    {
        let high = if lo > hi {
            lo
        } else {
            hi
        };
        let low = if lo < hi {
            lo
        } else {
            hi
        };
        if high >= slice.len() {
            return Err(BitsError::BitIndexOutOfRange);
        }
        let width = high - low + 1;
        if width != SIZE {
            return Err(BitsError::BitWidthMismatch { expected: SIZE, found: width });
        }
        let start = slice.len() - high - 1;
        let mut copied = Bits::new();
        let mut i: usize = 0;
        while i < SIZE
            invariant
                i <= SIZE,
                copied@.len() == SIZE,
                start + SIZE <= slice@.len() <= usize::MAX,
                forall|j: int| 0 <= j < i ==> copied@[j] == slice@[start + j],
            decreases SIZE - i,
        {
            copied.0[i] = slice[start + i];
            i = i + 1;
        }
        proof {
            assert(copied@ =~= slice@.subrange(start as int, start + SIZE));
        }
        Ok(copied)
    }

    /// Returns the width of the `Bits` in bits.
    pub fn size(&self) -> (result: usize)
        ensures
            result == SIZE,
    {
        SIZE
    }

    /// Gets an immutable reference to bit `n`, or `None` if `n` is out of
    /// bounds.
    ///
    /// Note that this function indexes in "regular" order, i.e. `get_bit(0)`
    /// returns the leftmost, most significant bit.
    pub fn get_bit(&self, n: usize) -> (result: Option<&bool>)
        ensures
            n < SIZE ==> (result matches Some(b) && *b == self@[n as int]),
            n >= SIZE ==> result is None,
    {
        if n < SIZE {
            Some(&self.0[n])
        } else {
            None
        }
    }

    /// Gets a mutable reference to bit `n`, or `None` if `n` is out of
    /// bounds.
    ///
    /// Note that this function indexes in "regular" order, i.e.
    /// `get_bit_mut(0)` returns the leftmost, most significant bit.
    pub fn get_bit_mut(&mut self, n: usize) -> (result: Option<&mut bool>)
        ensures
            n < SIZE ==> (result matches Some(b) && *b == old(self)@[n as int] && final(self)@
                == old(self)@.update(n as int, *final(b))),
            n >= SIZE ==> (result is None && *final(self) == *old(self)),
    {
        if n < SIZE {
            Some(&mut self.0[n])
        } else {
            None
        }
    }
}

impl<const SIZE: usize> Default for Bits<SIZE> {
    /// The all-zero vector.
    fn default() -> (result: Self)
        ensures
            result@ == Seq::new(SIZE as nat, |i: int| false),
    {
        Bits::new()
    }
}

} // verus!
