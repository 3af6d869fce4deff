//! Laws the library's operations obey, stated over the same spec functions
//! the operations' contracts use.
use vstd::prelude::*;
use vstd::arithmetic::power2::{pow2, lemma_pow2_unfold, lemma_pow2_pos,
    lemma_pow2_strictly_increases, lemma2_to64};
use vstd::arithmetic::div_mod::{lemma_small_mod, lemma_mod_multiples_vanish, lemma_mod_bound,
    lemma_fundamental_div_mod_converse, lemma_basic_div};
use crate::model::{u_val, nth_bit, bits_of, twos_bits, low_bits, scalar_u, scalar_s, cap32, rot_r,
    rot_l, lemma_u_val_bits_of, lemma_twos_bits_index};
use crate::render::bin_chars;
use crate::parse::{strip_spaces, is_bin_char, parse_ok, parsed_bits};

verus! {

/// A sequence without spaces is left alone by space stripping.
proof fn lemma_strip_no_spaces(cs: Seq<char>)
    requires
        forall|i: int| 0 <= i < cs.len() ==> cs[i] != ' ',
    ensures
        strip_spaces(cs) == cs,
    decreases cs.len(),
{
    if cs.len() > 0 {
        lemma_strip_no_spaces(cs.drop_last());
        assert(strip_spaces(cs) =~= cs);
    } else {
        assert(strip_spaces(cs) =~= cs);
    }
}

/// The all-ones vector of width `n` denotes `2^n - 1`.
proof fn lemma_u_val_all_ones(n: nat)
    ensures
        u_val(Seq::new(n, |i: int| true)) == pow2(n) - 1,
    decreases n,
{
    let s = Seq::new(n, |i: int| true);
    if n == 0 {
        assert(pow2(0) == 1) by {
            lemma2_to64();
        }
    } else {
        lemma_u_val_all_ones((n - 1) as nat);
        assert(s.drop_last() =~= Seq::new((n - 1) as nat, |i: int| true));
        lemma_pow2_unfold(n);
    }
}

/// Unsigned round trip: a value representable in `n` bits (unsigned) is
/// recovered exactly when the vector built from it is converted back. For
/// widths above 32 every 32-bit value is representable.
pub proof fn lemma_unsigned_round_trip(x: u32, n: nat)
    requires
        (x as nat) < pow2(cap32(n)),
    ensures
        scalar_u(bits_of(x as nat, n)) == x,
{
    let bs = bits_of(x as nat, n);
    lemma_pow2_pos(n);
    lemma_pow2_pos(32);
    if n <= 32 {
        assert(low_bits(bs, 32) == bs);
        lemma_u_val_bits_of(x as nat, n);
        lemma_small_mod(x as nat, pow2(n));
    } else {
        let low = low_bits(bs, 32);
        assert(low =~= bits_of(x as nat, 32));
        lemma_u_val_bits_of(x as nat, 32);
        lemma_small_mod(x as nat, pow2(32));
    }
}

/// Signed round trip: a value representable in two's complement in `n` bits
/// (and in an `i32`) is recovered exactly when the vector built from it is
/// converted back.
pub proof fn lemma_signed_round_trip(x: int, n: nat)
    requires
        n >= 1,
        -(pow2(31) as int) <= x < pow2(31),
        -(pow2((n - 1) as nat) as int) <= x < pow2((n - 1) as nat),
    ensures
        scalar_s(twos_bits(x, n)) == x,
    decreases n,
{
    let bs = twos_bits(x, n);
    lemma_pow2_pos(n);
    lemma_pow2_pos((n - 1) as nat);
    lemma_pow2_unfold(n);
    let a = (x % (pow2(n) as int)) as nat;
    lemma_mod_bound(x, pow2(n) as int);
    if n <= 32 {
        assert(low_bits(bs, 32) == bs);
        lemma_u_val_bits_of(a, n);
        lemma_small_mod(a, pow2(n));
        assert(u_val(bs) == a);
        assert(bs.len() == n && bs[0] == nth_bit(a, (n - 1) as nat));
        if x >= 0 {
            lemma_small_mod(x as nat, pow2(n));
            assert(a == x);
            lemma_basic_div(a as int, pow2((n - 1) as nat) as int);
            assert(!nth_bit(a, (n - 1) as nat));
        } else {
            assert(a == x + pow2(n)) by {
                lemma_mod_multiples_vanish(1, x, pow2(n) as int);
                assert(pow2(n) * 1 + x == x + pow2(n));
                lemma_small_mod((x + pow2(n)) as nat, pow2(n));
            }
            assert(pow2((n - 1) as nat) <= a < pow2(n));
            assert(a as int / (pow2((n - 1) as nat) as int) == 1) by {
                lemma_fundamental_div_mod_converse(
                    a as int,
                    pow2((n - 1) as nat) as int,
                    1,
                    a - pow2((n - 1) as nat),
                );
            }
            assert(nth_bit(a, (n - 1) as nat));
        }
    } else {
        let low = low_bits(bs, 32);
        assert(low =~= twos_bits(x, 32)) by {
            assert forall|i: int| 0 <= i < 32 implies bs[i + n - 32] == twos_bits(x, 32)[i] by {
                lemma_twos_bits_index(x, n, (31 - i) as nat);
                lemma_twos_bits_index(x, 32, (31 - i) as nat);
            }
        }
        lemma_pow2_strictly_increases(31, 32);
        lemma_signed_round_trip(x, 32);
    }
}

/// Rotating right by `k` and then left by `k` restores the vector, for any
/// `k`.
pub proof fn lemma_rotate_right_then_left(s: Seq<bool>, k: nat)
    requires
        s.len() >= 1,
    ensures
        rot_l(rot_r(s, k), k) == s,
{
    let r = rot_r(s, k);
    assert(r.len() == s.len());
    assert(forall|j: int| 0 <= j < s.len() ==> rot_l(r, k)[j] == s[j]);
    assert(rot_l(r, k) =~= s);
}

/// Rotating right by the full width, or by nothing, leaves the vector as it
/// is.
pub proof fn lemma_rotate_identity(s: Seq<bool>)
    requires
        s.len() >= 1,
    ensures
        rot_r(s, s.len()) == s,
        rot_r(s, 0) == s,
{
    assert(s.len() % s.len() == 0) by {
        lemma_mod_multiples_vanish(1, 0, s.len() as int);
        lemma_small_mod(0, s.len());
    }
    assert(0int % (s.len() as int) == 0) by {
        lemma_small_mod(0, s.len());
    }
    assert(rot_r(s, s.len()) =~= s);
    assert(rot_r(s, 0) =~= s);
}

/// Binary-string round trip: the plain binary rendering of a vector parses
/// back, at the vector's own width, to exactly that vector.
pub proof fn lemma_bin_string_round_trip(s: Seq<bool>)
    ensures
        parse_ok(bin_chars(s), s.len()),
        parsed_bits(bin_chars(s), s.len()) == s,
{
    let cs = bin_chars(s);
    lemma_strip_no_spaces(cs);
    assert(forall|i: int| 0 <= i < cs.len() ==> is_bin_char(cs[i]));
    assert(parsed_bits(cs, s.len()) =~= s);
}

/// Adding one to the all-ones vector overflows to zero: for widths up to 32,
/// the masked sum is zero and the carry leaves the width.
pub proof fn lemma_unsigned_add_all_ones_overflows(n: nat)
    requires
        1 <= n <= 32,
    ensures
        ((scalar_u(Seq::new(n, |i: int| true)) + scalar_u(bits_of(1, n))) as int) % (pow2(
            cap32(n),
        ) as int) == 0,
        scalar_u(Seq::new(n, |i: int| true)) + scalar_u(bits_of(1, n)) >= pow2(n),
        bits_of(0, n) == Seq::new(n, |i: int| false),
{
    let ones = Seq::new(n, |i: int| true);
    lemma_pow2_pos(n);
    assert(scalar_u(ones) == pow2(n) - 1) by {
        assert(low_bits(ones, 32) == ones);
        lemma_u_val_all_ones(n);
    }
    assert(scalar_u(bits_of(1, n)) == 1) by {
        assert(low_bits(bits_of(1, n), 32) == bits_of(1, n));
        lemma_u_val_bits_of(1, n);
        assert(pow2(1) <= pow2(n)) by {
            lemma2_to64();
            if n > 1 {
                lemma_pow2_strictly_increases(1, n);
            }
        }
        lemma_small_mod(1, pow2(n));
    }
    assert((pow2(n) as int) % (pow2(n) as int) == 0) by {
        lemma_mod_multiples_vanish(1, 0, pow2(n) as int);
        lemma_small_mod(0, pow2(n));
    }
    assert forall|i: int| 0 <= i < n implies !bits_of(0, n)[i] by {
        lemma_pow2_pos((n - 1 - i) as nat);
        lemma_basic_div(0, pow2((n - 1 - i) as nat) as int);
    }
    assert(bits_of(0, n) =~= Seq::new(n, |i: int| false));
}

/// Adding the largest positive value of a width to itself overflows: the
/// exact sum leaves the signed range of the width. This needs at least two
/// bits; a one-bit vector has no positive value.
pub proof fn lemma_signed_add_max_overflows(n: nat)
    requires
        2 <= n <= 32,
    ensures
        scalar_s(twos_bits(pow2((n - 1) as nat) - 1, n)) == pow2((n - 1) as nat) - 1,
        scalar_s(twos_bits(pow2((n - 1) as nat) - 1, n)) + scalar_s(
            twos_bits(pow2((n - 1) as nat) - 1, n),
        ) > pow2((n - 1) as nat) - 1,
{
    let maxp = pow2((n - 1) as nat) - 1;
    lemma_pow2_pos((n - 1) as nat);
    assert(pow2((n - 1) as nat) <= pow2(31)) by {
        if n - 1 < 31 {
            lemma_pow2_strictly_increases((n - 1) as nat, 31);
        }
    }
    lemma_signed_round_trip(maxp, n);
    lemma_pow2_unfold((n - 1) as nat);
    assert(pow2((n - 1) as nat) >= 2) by {
        lemma2_to64();
        if n > 2 {
            lemma_pow2_strictly_increases(1, (n - 1) as nat);
        }
    }
}

} // verus!
