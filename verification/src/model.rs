//! The mathematical model of a bit vector: a `Seq<bool>` with the most
//! significant bit first, together with the unsigned and two's-complement
//! values such a sequence denotes.
use vstd::prelude::*;
use vstd::arithmetic::power2::{pow2, lemma_pow2_unfold, lemma_pow2_adds, lemma_pow2_pos,
    lemma_pow2_strictly_increases};
use vstd::arithmetic::div_mod::{lemma_div_denominator, lemma_mod_breakdown, lemma_small_mod,
    lemma_mod_multiples_vanish, lemma_fundamental_div_mod_converse, lemma_mod_bound};

verus! {

/// Unsigned value denoted by a bit sequence, most significant bit first.
pub open spec fn u_val(s: Seq<bool>) -> nat
    decreases s.len(),
{
    if s.len() == 0 {
        0
    } else {
        2 * u_val(s.drop_last()) + (if s.last() {
            1nat
        } else {
            0nat
        })
    }
}

/// Bit `k` of the natural number `x`, counting from the least significant bit.
pub open spec fn nth_bit(x: nat, k: nat) -> bool {
    (x / pow2(k)) % 2 == 1
}

/// The `n`-bit pattern (most significant bit first) of the low `n` bits of `x`.
pub open spec fn bits_of(x: nat, n: nat) -> Seq<bool> {
    Seq::new(n, |i: int| nth_bit(x, (n - 1 - i) as nat))
}

/// The two's-complement `n`-bit pattern of the integer `x`.
pub open spec fn twos_bits(x: int, n: nat) -> Seq<bool> {
    bits_of((x % (pow2(n) as int)) as nat, n)
}

/// Two's-complement signed value of a bit pattern; bit 0 is the sign bit.
pub open spec fn s_val(s: Seq<bool>) -> int {
    u_val(s) - if s.len() > 0 && s[0] {
        pow2(s.len()) as int
    } else {
        0
    }
}

/// The `w` low-order (least significant) bits of `s`.
pub open spec fn low_bits(s: Seq<bool>, w: nat) -> Seq<bool> {
    if s.len() <= w {
        s
    } else {
        s.skip(s.len() - w)
    }
}

/// The unsigned scalar a vector converts to: the value of its low 32 bits.
pub open spec fn scalar_u(s: Seq<bool>) -> nat {
    u_val(low_bits(s, 32))
}

/// The signed scalar a vector converts to: the two's-complement value of its
/// low 32 bits (sign-extended from the vector's own sign bit when shorter).
pub open spec fn scalar_s(s: Seq<bool>) -> int {
    s_val(low_bits(s, 32))
}

/// `n` capped at 32: the number of bits of an `n`-bit vector that take part
/// in a conversion to a 32-bit scalar.
pub open spec fn cap32(n: nat) -> nat {
    if n <= 32 {
        n
    } else {
        32
    }
}

/// The integer of the `i32` range that `v` wraps to modulo `2^32`.
pub open spec fn wrap_i32(v: int) -> int {
    let m = v % (pow2(32) as int);
    if m >= pow2(31) {
        m - pow2(32)
    } else {
        m
    }
}

/// Right rotation: the bit at position `i` moves to position `(i + n) % len`.
pub open spec fn rot_r(s: Seq<bool>, n: nat) -> Seq<bool>
    recommends
        s.len() > 0,
{
    let k = n % s.len();
    Seq::new(
        s.len(),
        |j: int|
            if j >= k {
                s[j - k]
            } else {
                s[j + s.len() - k]
            },
    )
}

/// Left rotation: the bit at position `i` moves to position `(i + len - n) % len`.
pub open spec fn rot_l(s: Seq<bool>, n: nat) -> Seq<bool>
    recommends
        s.len() > 0,
{
    let k = n % s.len();
    Seq::new(
        s.len(),
        |j: int|
            if j + k < s.len() {
                s[j + k]
            } else {
                s[j + k - s.len()]
            },
    )
}

/// The value of a bit sequence is below `2^len`.
pub proof fn lemma_u_val_bound(s: Seq<bool>)
    ensures
        u_val(s) < pow2(s.len()),
    decreases s.len(),
{
    if s.len() == 0 {
        assert(pow2(0) == 1) by {
            vstd::arithmetic::power2::lemma2_to64();
        }
    } else {
        lemma_u_val_bound(s.drop_last());
        lemma_pow2_unfold(s.len());
    }
}

/// Dropping the last (least significant) bit of the pattern of `x` gives the
/// pattern of `x / 2`.
pub proof fn lemma_bits_of_drop_last(x: nat, n: nat)
    requires
        n >= 1,
    ensures
        bits_of(x, n).drop_last() == bits_of(x / 2, (n - 1) as nat),
        bits_of(x, n).last() == (x % 2 == 1),
{
    assert(pow2(0) == 1) by {
        vstd::arithmetic::power2::lemma2_to64();
    }
    assert forall|i: int| 0 <= i < n - 1 implies bits_of(x, n).drop_last()[i] == bits_of(
        x / 2,
        (n - 1) as nat,
    )[i] by {
        let k = (n - 2 - i) as nat;
        lemma_pow2_pos(k);
        lemma_div_denominator(x as int, 2, pow2(k) as int);
        lemma_pow2_unfold(k + 1);
        assert((x / 2) / pow2(k) == x / pow2(k + 1));
    }
    assert(bits_of(x, n).drop_last() =~= bits_of(x / 2, (n - 1) as nat));
}

/// The value denoted by the `n`-bit pattern of `x` is `x` modulo `2^n`.
pub proof fn lemma_u_val_bits_of(x: nat, n: nat)
    ensures
        u_val(bits_of(x, n)) == x % pow2(n),
    decreases n,
{
    if n == 0 {
        assert(pow2(0) == 1) by {
            vstd::arithmetic::power2::lemma2_to64();
        }
        assert(bits_of(x, 0) =~= Seq::<bool>::empty());
    } else {
        lemma_u_val_bits_of(x / 2, (n - 1) as nat);
        lemma_bits_of_drop_last(x, n);
        lemma_pow2_pos((n - 1) as nat);
        lemma_mod_breakdown(x as int, 2, pow2((n - 1) as nat) as int);
        lemma_pow2_unfold(n);
        assert(u_val(bits_of(x, n)) == 2 * u_val(bits_of(x / 2, (n - 1) as nat)) + (if x % 2 == 1 {
            1nat
        } else {
            0nat
        }));
    }
}

/// A bit sequence is the pattern of its own value: bit decomposition is unique.
pub proof fn lemma_bits_of_u_val(s: Seq<bool>)
    ensures
        bits_of(u_val(s), s.len()) == s,
    decreases s.len(),
{
    if s.len() == 0 {
        assert(bits_of(u_val(s), 0) =~= s);
    } else {
        let u = u_val(s);
        let b: nat = if s.last() {
            1
        } else {
            0
        };
        assert(u == 2 * u_val(s.drop_last()) + b);
        assert(u / 2 == u_val(s.drop_last()) && u % 2 == b) by {
            lemma_fundamental_div_mod_converse(u as int, 2, u_val(s.drop_last()) as int, b as int);
        }
        lemma_bits_of_u_val(s.drop_last());
        lemma_bits_of_drop_last(u, s.len());
        assert(bits_of(u, s.len()).drop_last() == s.drop_last());
        assert(bits_of(u, s.len()).last() == s.last());
        assert forall|i: int| 0 <= i < s.len() implies bits_of(u, s.len())[i] == s[i] by {
            if i < s.len() - 1 {
                assert(bits_of(u, s.len()).drop_last()[i] == s.drop_last()[i]);
            }
        }
        assert(bits_of(u, s.len()) =~= s);
    }
}

/// Splitting off the `k` low bits: the value is the value of the high part,
/// shifted up by `k`, plus the value of the low part.
pub proof fn lemma_u_val_split(s: Seq<bool>, k: nat)
    requires
        k <= s.len(),
    ensures
        u_val(s) == u_val(s.take(s.len() - k)) * pow2(k) + u_val(s.skip(s.len() - k)),
    decreases k,
{
    if k == 0 {
        assert(pow2(0) == 1) by {
            vstd::arithmetic::power2::lemma2_to64();
        }
        assert(s.take(s.len() as int) =~= s);
        assert(s.skip(s.len() as int) =~= Seq::<bool>::empty());
    } else {
        let dl = s.drop_last();
        assert(s.len() >= 1);
        lemma_u_val_split(dl, (k - 1) as nat);
        assert(s.take(s.len() - k) =~= dl.take(dl.len() - (k - 1)));
        assert(s.skip(s.len() - k).drop_last() =~= dl.skip(dl.len() - (k - 1)));
        assert(s.skip(s.len() - k).last() == s.last());
        assert(s.skip(s.len() - k).len() == k);
        lemma_pow2_unfold(k);
        let b: nat = if s.last() {
            1
        } else {
            0
        };
        assert(u_val(s) == 2 * u_val(dl) + b);
        assert(u_val(s.skip(s.len() - k)) == 2 * u_val(dl.skip(dl.len() - (k - 1))) + b);
        assert(2 * (u_val(s.take(s.len() - k)) * pow2((k - 1) as nat)) == u_val(
            s.take(s.len() - k),
        ) * pow2(k)) by {
            let a = u_val(s.take(s.len() - k)) as int;
            let p = pow2((k - 1) as nat) as int;
            assert(2 * p == pow2(k));
            vstd::arithmetic::mul::lemma_mul_is_associative(2, a, p);
            vstd::arithmetic::mul::lemma_mul_is_commutative(2, a);
            vstd::arithmetic::mul::lemma_mul_is_associative(a, 2, p);
        }
    }
}

/// The first (most significant) bit carries `2^(len-1)`; the rest is smaller.
pub proof fn lemma_u_val_first(s: Seq<bool>)
    requires
        s.len() >= 1,
    ensures
        u_val(s) == (if s[0] {
            pow2((s.len() - 1) as nat)
        } else {
            0nat
        }) + u_val(s.skip(1)),
        u_val(s.skip(1)) < pow2((s.len() - 1) as nat),
{
    lemma_u_val_split(s, (s.len() - 1) as nat);
    let hd = s.take(1);
    assert(hd.len() == 1);
    assert(hd.drop_last() =~= Seq::<bool>::empty());
    assert(u_val(hd.drop_last()) == 0);
    assert(hd.last() == s[0]);
    assert(u_val(hd) == if s[0] {
        1nat
    } else {
        0nat
    });
    let p = pow2((s.len() - 1) as nat);
    assert(u_val(s) == u_val(hd) * p + u_val(s.skip(1)));
    assert(1nat * p == p) by {
        vstd::arithmetic::mul::lemma_mul_basics(p as int);
    }
    assert(0nat * p == 0) by {
        vstd::arithmetic::mul::lemma_mul_basics(p as int);
    }
    lemma_u_val_bound(s.skip(1));
}

/// The value of the low 32 bits is the full value modulo `2^32`.
pub proof fn lemma_scalar_u_is_mod(s: Seq<bool>)
    ensures
        scalar_u(s) == u_val(s) % pow2(32),
{
    lemma_pow2_pos(32);
    if s.len() <= 32 {
        lemma_u_val_bound(s);
        if s.len() < 32 {
            lemma_pow2_strictly_increases(s.len(), 32);
        }
        lemma_small_mod(u_val(s), pow2(32));
    } else {
        lemma_u_val_split(s, 32);
        let hi = u_val(s.take(s.len() - 32));
        let lo = u_val(s.skip(s.len() - 32));
        lemma_u_val_bound(s.skip(s.len() - 32));
        assert(s.skip(s.len() - 32).len() == 32);
        lemma_mod_multiples_vanish(hi as int, lo as int, pow2(32) as int);
        lemma_small_mod(lo, pow2(32));
        assert(pow2(32) * hi == hi * pow2(32)) by {
            vstd::arithmetic::mul::lemma_mul_is_commutative(pow2(32) as int, hi as int);
        }
    }
}

/// A bit of a number depends only on the number modulo the next power of two.
pub proof fn lemma_nth_bit_mod(a: nat, b: nat, k: nat)
    requires
        a % pow2(k + 1) == b % pow2(k + 1),
    ensures
        nth_bit(a, k) == nth_bit(b, k),
{
    lemma_pow2_pos(k);
    lemma_nth_bit_from_mod(a, k);
    lemma_nth_bit_from_mod(b, k);
}

/// A bit can be read off the remainder modulo the next power of two.
pub proof fn lemma_nth_bit_from_mod(a: nat, k: nat)
    ensures
        nth_bit(a, k) == ((a % pow2(k + 1)) / pow2(k) == 1),
{
    lemma_pow2_pos(k);
    lemma_mod_breakdown(a as int, pow2(k) as int, 2);
    lemma_pow2_unfold(k + 1);
    assert(pow2(k) * 2 == pow2(k + 1)) by {
        vstd::arithmetic::mul::lemma_mul_is_commutative(pow2(k) as int, 2);
    }
    let q = (a / pow2(k)) % 2;
    let r = a % pow2(k);
    assert(a % pow2(k + 1) == pow2(k) * q + r);
    lemma_mod_bound(a as int, pow2(k) as int);
    assert(((pow2(k) * q + r) as int) / (pow2(k) as int) == q) by {
        lemma_fundamental_div_mod_converse(
            (pow2(k) * q + r) as int,
            pow2(k) as int,
            q as int,
            r as int,
        );
        vstd::arithmetic::mul::lemma_mul_is_commutative(pow2(k) as int, q as int);
    }
    assert(0 <= q < 2) by {
        lemma_mod_bound((a / pow2(k)) as int, 2);
    }
}

/// The signed scalar of any non-empty vector lies in the `i32` range.
pub proof fn lemma_scalar_s_bound(s: Seq<bool>)
    requires
        s.len() >= 1,
    ensures
        -(pow2(31) as int) <= scalar_s(s) < pow2(31),
{
    let low = low_bits(s, 32);
    assert(low.len() >= 1);
    lemma_u_val_first(low);
    let p = pow2((low.len() - 1) as nat);
    if low.len() < 32 {
        lemma_pow2_strictly_increases((low.len() - 1) as nat, 31);
    }
    if low[0] {
        lemma_pow2_unfold(low.len());
        assert(u_val(low) >= p);
        assert(pow2(low.len()) == 2 * p);
    } else {
        assert(u_val(low) < p);
    }
}

/// Reading one bit of a two's-complement pattern: below bit 32 it is the
/// corresponding bit of the value taken modulo `2^32`; from bit 32 upward it
/// is a copy of the sign.
pub proof fn lemma_twos_bits_index(x: int, n: nat, k: nat)
    requires
        k < n,
        -(pow2(31) as int) <= x < pow2(31),
    ensures
        twos_bits(x, n)[n - 1 - k] == (if k < 32 {
            nth_bit((x % (pow2(32) as int)) as nat, k)
        } else {
            x < 0
        }),
{
    lemma_pow2_pos(n);
    lemma_pow2_pos(k);
    lemma_pow2_pos((k + 1) as nat);
    lemma_mod_bound(x, pow2(n) as int);
    let a = (x % (pow2(n) as int)) as nat;
    assert(twos_bits(x, n)[n - 1 - k] == nth_bit(a, k));
    if k < 32 {
        let b = (x % (pow2(32) as int)) as nat;
        lemma_pow2_pos(32);
        lemma_mod_bound(x, pow2(32) as int);
        assert(a % pow2(k + 1) == x % (pow2(k + 1) as int)) by {
            lemma_pow2_adds(k + 1, (n - k - 1) as nat);
            vstd::arithmetic::div_mod::lemma_mod_mod(
                x,
                pow2(k + 1) as int,
                pow2((n - k - 1) as nat) as int,
            );
        }
        assert(b % pow2(k + 1) == x % (pow2(k + 1) as int)) by {
            lemma_pow2_adds(k + 1, (32 - k - 1) as nat);
            vstd::arithmetic::div_mod::lemma_mod_mod(
                x,
                pow2(k + 1) as int,
                pow2((32 - k - 1) as nat) as int,
            );
        }
        lemma_mod_bound(x, pow2(k + 1) as int);
        lemma_nth_bit_mod(a, b, k);
    } else {
        assert(n > 32);
        assert(pow2(31) < pow2(32) <= pow2(k) && pow2(32) <= pow2(n)) by {
            lemma_pow2_strictly_increases(31, 32);
            if k > 32 {
                lemma_pow2_strictly_increases(32, k);
            }
            if n > 32 {
                lemma_pow2_strictly_increases(32, n);
            }
        }
        if x >= 0 {
            lemma_small_mod(x as nat, pow2(n));
            assert(a == x);
            lemma_nth_bit_high_zero(a, k);
        } else {
            assert(a == x + pow2(n)) by {
                lemma_mod_multiples_vanish(1, x, pow2(n) as int);
                assert(pow2(n) * 1 + x == x + pow2(n));
                lemma_small_mod((x + pow2(n)) as nat, pow2(n));
            }
            // a = 2^k * (2^(n-k) - 1) + (2^k + x), with the tail in [0, 2^k).
            let q = (pow2((n - k) as nat) - 1) as int;
            let r = pow2(k) + x;
            assert(0 <= r < pow2(k));
            assert(a == q * (pow2(k) as int) + r) by {
                lemma_pow2_adds(k, (n - k) as nat);
                assert(pow2(k) * pow2((n - k) as nat) == pow2(n));
                assert(q * (pow2(k) as int) == (pow2((n - k) as nat) * (pow2(k) as int)) - pow2(
                    k,
                )) by {
                    vstd::arithmetic::mul::lemma_mul_is_distributive_sub_other_way(
                        pow2(k) as int,
                        pow2((n - k) as nat) as int,
                        1,
                    );
                }
                vstd::arithmetic::mul::lemma_mul_is_commutative(
                    pow2((n - k) as nat) as int,
                    pow2(k) as int,
                );
            }
            lemma_fundamental_div_mod_converse(a as int, pow2(k) as int, q, r);
            assert(a / pow2(k) == q);
            assert(q % 2 == 1) by {
                lemma_pow2_unfold((n - k) as nat);
                assert(pow2((n - k) as nat) == 2 * pow2((n - k - 1) as nat));
            }
        }
    }
}

/// For `k` at or above the width of `x`, bit `k` of `x` is clear.
pub proof fn lemma_nth_bit_high_zero(x: nat, k: nat)
    requires
        x < pow2(k),
    ensures
        !nth_bit(x, k),
{
    lemma_pow2_pos(k);
    vstd::arithmetic::div_mod::lemma_basic_div(x as int, pow2(k) as int);
}

} // verus!
