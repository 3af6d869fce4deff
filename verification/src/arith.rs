//! Scalar conversion, width-aware addition with overflow detection, and
//! rotation.
use vstd::prelude::*;
use vstd::arithmetic::power2::{pow2, lemma_pow2_unfold, lemma_pow2_pos,
    lemma_pow2_strictly_increases, lemma2_to64, lemma2_to64_rest};
use vstd::arithmetic::div_mod::{lemma_small_mod, lemma_mod_multiples_vanish};
use crate::bits::Bits;
use crate::model::{u_val, low_bits, scalar_u, scalar_s, cap32, wrap_i32, rot_r, rot_l, bits_of,
    twos_bits, lemma_u_val_bound, lemma_u_val_first, lemma_scalar_s_bound};

verus! {

/// `2^e` as a machine word.
fn pow2_u64(e: usize) -> (result: u64)
    requires
        e < 64,
    ensures
        result as nat == pow2(e as nat),
{
    proof {
        lemma2_to64();
        lemma2_to64_rest();
    }
    let mut result: u64 = 1;
    let mut i: usize = 0;
    while i < e
        invariant
            i <= e < 64,
            result as nat == pow2(i as nat),
        decreases e - i,
    {
        proof {
            lemma2_to64();
            lemma2_to64_rest();
            lemma_pow2_strictly_increases((i + 1) as nat, 64);
            lemma_pow2_unfold((i + 1) as nat);
        }
        result = result * 2;
        i = i + 1;
    }
    result
}

impl<const SIZE: usize> Bits<SIZE> {
    /// Converts the bit vector into an unsigned integer value.
    ///
    /// Only the 32 least significant bits take part: if the vector is wider,
    /// the bits above them are ignored.
    pub fn unsigned_value(&self) -> (result: u32)
        ensures
            result as nat == scalar_u(self@),
    {
        proof {
            lemma2_to64();
        }
        let start: usize = if SIZE <= 32 {
            0
        } else {
            SIZE - 32
        };
        let mut result: u32 = 0;
        let mut i: usize = start;
        proof {
            assert(self@.subrange(start as int, start as int) =~= Seq::<bool>::empty());
        }
        while i < SIZE
            invariant
                start <= i <= SIZE,
                start == if SIZE <= 32 {
                    0int
                } else {
                    SIZE - 32
                },
                i - start <= 32,
                result as nat == u_val(self@.subrange(start as int, i as int)),
                (result as nat) < pow2((i - start) as nat),
            decreases SIZE - i,
        {
            proof {
                lemma2_to64();
                if i - start < 31 {
                    lemma_pow2_strictly_increases((i - start) as nat, 31);
                }
                assert(self@.subrange(start as int, i + 1).drop_last() =~= self@.subrange(
                    start as int,
                    i as int,
                ));
                lemma_pow2_unfold((i + 1 - start) as nat);
            }
            let b = self.0[i];
            result = result * 2 + (crate::bits::bit(b) as u32);
            i = i + 1;
        }
        proof {
            assert(self@.subrange(start as int, SIZE as int) =~= low_bits(self@, 32));
        }
        result
    }

    /// Converts the bit vector into a signed integer value.
    ///
    /// When the vector is narrower than 32 bits, its own sign bit (bit 0) is
    /// extended; when it is at least 32 bits wide, the 32 least significant
    /// bits are taken as a two's-complement pattern.
    pub fn signed_value(&self) -> (result: i32)
        requires
            SIZE >= 1,
        ensures
            result as int == scalar_s(self@),
    {
        proof {
            lemma2_to64();
        }
        let u = self.unsigned_value();
        let ghost low = low_bits(self@, 32);
        proof {
            lemma_u_val_first(low);
            lemma_u_val_bound(low);
        }
        if SIZE < 32 {
            if self.0[0] {
                let m = pow2_u64(SIZE);
                let v: i64 = (u as i64) - (m as i64);
                proof {
                    assert(low == self@ && low[0] == self@[0]);
                    if SIZE < 31 {
                        lemma_pow2_strictly_increases(SIZE as nat, 31);
                    }
                    lemma_pow2_strictly_increases((SIZE - 1) as nat, 31);
                }
                v as i32
            } else {
                proof {
                    lemma_pow2_strictly_increases((SIZE - 1) as nat, 31);
                }
                u as i32
            }
        } else {
            proof {
                assert(low.len() == 32);
            }
            if u >= 0x8000_0000u32 {
                proof {
                    assert(low[0]);
                }
                let v: i64 = (u as i64) - 0x1_0000_0000i64;
                v as i32
            } else {
                proof {
                    assert(!low[0]);
                }
                u as i32
            }
        }
    }

    /// Performs an unsigned addition between this and `other`, returning the
    /// result as a new `Bits`, as well as whether or not an overflow
    /// occurred.
    ///
    /// The sum of the two unsigned values is reduced to the width the values
    /// share with a 32-bit word; the overflow flag reports whether the exact
    /// sum needs more than `SIZE` bits.
    pub fn unsigned_add(&self, other: Self) -> (result: (Self, bool))
        ensures
            result.0@ == bits_of(
                (scalar_u(self@) + scalar_u(other@)) % pow2(cap32(SIZE as nat)),
                SIZE as nat,
            ),
            result.1 == (scalar_u(self@) + scalar_u(other@) >= pow2(SIZE as nat)),
    {
        proof {
            lemma2_to64();
            lemma2_to64_rest();
        }
        let a = self.unsigned_value() as u64;
        let b = other.unsigned_value() as u64;
        let sum = a + b;
        if SIZE <= 32 {
            let m = pow2_u64(SIZE);
            proof {
                lemma_pow2_pos(SIZE as nat);
            }
            let r = (sum % m) as u32;
            (Bits::from_unsigned(r), sum >= m)
        } else {
            let r = (sum % 0x1_0000_0000u64) as u32;
            proof {
                assert(pow2(33) <= pow2(SIZE as nat)) by {
                    if SIZE > 33 {
                        lemma_pow2_strictly_increases(33, SIZE as nat);
                    }
                }
            }
            (Bits::from_unsigned(r), false)
        }
    }

    /// Performs a signed addition between this and `other`, returning the
    /// result as a new `Bits`, as well as whether or not an overflow
    /// occurred.
    ///
    /// The sum of the two signed values is wrapped to a 32-bit
    /// two's-complement value and re-encoded at width `SIZE`; the overflow
    /// flag reports whether the exact sum leaves the signed `SIZE`-bit range.
    pub fn signed_add(&self, other: Self) -> (result: (Self, bool))
        requires
            SIZE >= 1,
        ensures
            result.0@ == twos_bits(wrap_i32(scalar_s(self@) + scalar_s(other@)), SIZE as nat),
            result.1 == !(-(pow2((SIZE - 1) as nat) as int) <= scalar_s(self@) + scalar_s(other@)
                && scalar_s(self@) + scalar_s(other@) < pow2((SIZE - 1) as nat)),
    {
        proof {
            lemma2_to64();
            lemma2_to64_rest();
            lemma_scalar_s_bound(self@);
            lemma_scalar_s_bound(other@);
        }
        let a = self.signed_value() as i64;
        let b = other.signed_value() as i64;
        let sum = a + b;
        let p64: i64 = if sum < 0 {
            sum + 0x1_0000_0000i64
        } else {
            sum
        };
        proof {
            if sum < 0 {
                lemma_mod_multiples_vanish(1, sum as int, pow2(32) as int);
                lemma_small_mod((sum + pow2(32)) as nat, pow2(32));
            } else {
                lemma_small_mod(sum as nat, pow2(32));
            }
            assert(p64 as int == (sum as int) % (pow2(32) as int));
        }
        let v64: i64 = if p64 >= 0x8000_0000i64 {
            p64 - 0x1_0000_0000i64
        } else {
            p64
        };
        proof {
            assert(v64 as int == wrap_i32(sum as int));
        }
        let out = Bits::from_signed(v64 as i32);
        let overflow: bool = if SIZE <= 33 {
            let bound = pow2_u64(SIZE - 1) as i64;
            sum < -bound || sum > bound - 1
        } else {
            proof {
                assert(pow2(33) <= pow2((SIZE - 1) as nat)) by {
                    if SIZE - 1 > 33 {
                        lemma_pow2_strictly_increases(33, (SIZE - 1) as nat);
                    }
                }
            }
            false
        };
        (out, overflow)
    }

    /// Rotates the bits right by `n` bits. `n` can be greater than `SIZE`,
    /// at which point it wraps back around.
    pub fn rotate_right(&self, n: usize) -> (result: Self)
        requires
            SIZE >= 1,
        ensures
            result@ == rot_r(self@, n as nat),
    {
        let k = n % SIZE;
        let mut result = Bits::new();
        let mut i: usize = 0;
        while i < SIZE
            invariant
                i <= SIZE,
                k < SIZE,
                k == (n as nat) % (SIZE as nat),
                result@.len() == SIZE,
                forall|ii: int|
                    0 <= ii < i ==> result@[if ii + k < SIZE {
                        ii + k
                    } else {
                        ii + k - SIZE
                    }] == self@[ii],
            decreases SIZE - i,
        {
            let j = if i < SIZE - k {
                i + k
            } else {
                i - (SIZE - k)
            };
            result.0[j] = self.0[i];
            i = i + 1;
        }
        proof {
            assert forall|j: int| 0 <= j < SIZE implies result@[j] == rot_r(self@, n as nat)[j] by {
                let ii = if j >= k {
                    j - k
                } else {
                    j + SIZE - k
                };
                assert(result@[if ii + k < SIZE {
                    ii + k
                } else {
                    ii + k - SIZE
                }] == self@[ii]);
            }
            assert(result@ =~= rot_r(self@, n as nat));
        }
        result
    }

    /// Rotates the bits left by `n` bits. `n` can be greater than `SIZE`,
    /// at which point it wraps back around.
    pub fn rotate_left(&self, n: usize) -> (result: Self)
        requires
            SIZE >= 1,
        ensures
            result@ == rot_l(self@, n as nat),
    {
        let k = n % SIZE;
        let mut result = Bits::new();
        let mut i: usize = 0;
        while i < SIZE
            invariant
                i <= SIZE,
                k < SIZE,
                k == (n as nat) % (SIZE as nat),
                result@.len() == SIZE,
                forall|ii: int|
                    0 <= ii < i ==> result@[if ii >= k {
                        ii - k
                    } else {
                        ii + SIZE - k
                    }] == self@[ii],
            decreases SIZE - i,
        {
            let j = if i >= k {
                i - k
            } else {
                i + (SIZE - k)
            };
            result.0[j] = self.0[i];
            i = i + 1;
        }
        proof {
            assert forall|j: int| 0 <= j < SIZE implies result@[j] == rot_l(self@, n as nat)[j] by {
                let ii = if j + k < SIZE {
                    j + k
                } else {
                    j + k - SIZE
                };
                assert(result@[if ii >= k {
                    ii - k
                } else {
                    ii + SIZE - k
                }] == self@[ii]);
            }
            assert(result@ =~= rot_l(self@, n as nat));
        }
        result
    }
}

} // verus!
