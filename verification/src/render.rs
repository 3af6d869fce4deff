//! Textual rendering: binary strings grouped in nibbles, grouped hexadecimal
//! strings, and the composite display form.
use vstd::prelude::*;
use vstd::string::StringExecFns;
use vstd::arithmetic::div_mod::{lemma_small_mod, lemma_mod_multiples_vanish};
use crate::bits::Bits;
use crate::model::{scalar_u, scalar_s};

verus! {

/// The character a single bit renders to.
pub open spec fn bit_char(b: bool) -> char {
    if b {
        '1'
    } else {
        '0'
    }
}

/// The plain binary rendering of a bit sequence, most significant bit first.
pub open spec fn bin_chars(s: Seq<bool>) -> Seq<char> {
    Seq::new(s.len(), |i: int| bit_char(s[i]))
}

/// The character a digit value below 16 renders to.
pub open spec fn digit_char(d: nat) -> char
    recommends
        d < 16,
{
    if d == 0 {
        '0'
    } else if d == 1 {
        '1'
    } else if d == 2 {
        '2'
    } else if d == 3 {
        '3'
    } else if d == 4 {
        '4'
    } else if d == 5 {
        '5'
    } else if d == 6 {
        '6'
    } else if d == 7 {
        '7'
    } else if d == 8 {
        '8'
    } else if d == 9 {
        '9'
    } else if d == 10 {
        'a'
    } else if d == 11 {
        'b'
    } else if d == 12 {
        'c'
    } else if d == 13 {
        'd'
    } else if d == 14 {
        'e'
    } else {
        'f'
    }
}

/// The decimal rendering of `v`, without leading zeros (`0` renders as "0").
pub open spec fn dec_chars(v: nat) -> Seq<char>
    decreases v,
{
    if v < 10 {
        seq![digit_char(v)]
    } else {
        dec_chars(v / 10).push(digit_char(v % 10))
    }
}

/// The minimal hexadecimal rendering of `v` (`0` renders as "0").
pub open spec fn hex_chars_min(v: nat) -> Seq<char>
    decreases v,
{
    if v < 16 {
        seq![digit_char(v)]
    } else {
        hex_chars_min(v / 16).push(digit_char(v % 16))
    }
}

/// The hexadecimal rendering of `v` zero-padded to exactly `d` digits.
pub open spec fn hex_chars_pad(v: nat, d: nat) -> Seq<char>
    decreases d,
{
    if d == 0 {
        Seq::empty()
    } else {
        hex_chars_pad(v / 16, (d - 1) as nat).push(digit_char(v % 16))
    }
}

/// The number of hex digits needed for `n` bits: `n / 4`, rounded up.
pub open spec fn hex_digits(n: nat) -> nat {
    if n % 4 == 0 {
        n / 4
    } else {
        n / 4 + 1
    }
}

/// `cs` cut into groups of `g` characters, counted from the end, the groups
/// separated by single spaces. The first group keeps the leftover characters
/// and never has a space in front of it.
pub open spec fn grouped(cs: Seq<char>, g: nat) -> Seq<char>
    decreases cs.len(),
{
    if g == 0 || cs.len() <= g {
        cs
    } else {
        grouped(cs.take(cs.len() - g), g) + seq![' '] + cs.skip(cs.len() - g)
    }
}

/// The first `i` characters of `cs` with a space inserted before each
/// position whose distance from the end of `cs` is a positive multiple of
/// `g`: the prefix of `grouped(cs, g)` a left-to-right writer has produced
/// after `i` characters.
pub open spec fn spaced_prefix(cs: Seq<char>, i: nat, g: nat) -> Seq<char>
    recommends
        i <= cs.len(),
        g >= 1,
    decreases i,
{
    if i == 0 {
        Seq::empty()
    } else {
        spaced_prefix(cs, (i - 1) as nat, g) + (if i - 1 > 0 && (cs.len() - (i - 1)) % (g as int)
            == 0 {
            seq![' ']
        } else {
            Seq::<char>::empty()
        }) + seq![cs[i - 1]]
    }
}

/// Cutting the last group off `cs` does not move the spaces in front of it.
proof fn lemma_spaced_prefix_take(cs: Seq<char>, g: nat, i: nat)
    requires
        g >= 1,
        i + g <= cs.len(),
    ensures
        spaced_prefix(cs, i, g) == spaced_prefix(cs.take(cs.len() - g), i, g),
    decreases i,
{
    if i > 0 {
        lemma_spaced_prefix_take(cs, g, (i - 1) as nat);
        let short = cs.take(cs.len() - g);
        assert(short[i - 1] == cs[i - 1]);
        assert((cs.len() - (i - 1)) % (g as int) == (short.len() - (i - 1)) % (g as int)) by {
            lemma_mod_multiples_vanish(1, short.len() - (i - 1), g as int);
        }
    }
}

/// Within the last group, the writer has put down one space and then the
/// group's characters so far.
proof fn lemma_spaced_prefix_unroll(cs: Seq<char>, g: nat, i: nat)
    requires
        g >= 1,
        cs.len() > g,
        cs.len() - g <= i <= cs.len(),
    ensures
        spaced_prefix(cs, i, g) == spaced_prefix(cs, (cs.len() - g) as nat, g) + (if i > cs.len()
            - g {
            seq![' '] + cs.subrange(cs.len() - g, i as int)
        } else {
            Seq::<char>::empty()
        }),
    decreases i,
{
    let head = spaced_prefix(cs, (cs.len() - g) as nat, g);
    if i == cs.len() - g {
        assert(spaced_prefix(cs, i, g) =~= head + Seq::<char>::empty());
    } else {
        lemma_spaced_prefix_unroll(cs, g, (i - 1) as nat);
        let j = i - 1;
        assert(0 < cs.len() - j <= g);
        if cs.len() - j < g {
            lemma_small_mod((cs.len() - j) as nat, g);
        } else {
            lemma_mod_multiples_vanish(1, 0, g as int);
            lemma_small_mod(0, g);
        }
        if j == cs.len() - g {
            assert((cs.len() - j) % (g as int) == 0);
            assert(spaced_prefix(cs, i, g) =~= head + (seq![' '] + cs.subrange(
                cs.len() - g,
                i as int,
            )));
        } else {
            assert((cs.len() - j) % (g as int) != 0);
            assert(spaced_prefix(cs, i, g) =~= head + (seq![' '] + cs.subrange(
                cs.len() - g,
                i as int,
            )));
        }
    }
}

/// A sequence that fits in one group is written without any space.
proof fn lemma_spaced_prefix_no_spaces(cs: Seq<char>, g: nat, i: nat)
    requires
        g >= 1,
        cs.len() <= g,
        i <= cs.len(),
    ensures
        spaced_prefix(cs, i, g) == cs.take(i as int),
    decreases i,
{
    if i == 0 {
        assert(spaced_prefix(cs, 0, g) =~= cs.take(0));
    } else {
        lemma_spaced_prefix_no_spaces(cs, g, (i - 1) as nat);
        let j = i - 1;
        if j > 0 {
            lemma_small_mod((cs.len() - j) as nat, g);
        }
        assert(spaced_prefix(cs, i, g) =~= cs.take(i as int));
    }
}

/// Writing character by character with positional spaces produces exactly the
/// grouped form.
pub proof fn lemma_spaced_is_grouped(cs: Seq<char>, g: nat)
    requires
        g >= 1,
    ensures
        spaced_prefix(cs, cs.len(), g) == grouped(cs, g),
    decreases cs.len(),
{
    if cs.len() <= g {
        lemma_spaced_prefix_no_spaces(cs, g, cs.len());
        assert(cs.take(cs.len() as int) =~= cs);
    } else {
        let short = cs.take(cs.len() - g);
        lemma_spaced_prefix_unroll(cs, g, cs.len());
        lemma_spaced_prefix_take(cs, g, (cs.len() - g) as nat);
        lemma_spaced_is_grouped(short, g);
        assert(cs.subrange(cs.len() - g, cs.len() as int) =~= cs.skip(cs.len() - g));
        assert(spaced_prefix(cs, cs.len(), g) =~= grouped(short, g) + seq![' '] + cs.skip(
            cs.len() - g,
        ));
    }
}

/// Append the rendering of the digit value `d` to `out`.
fn append_digit(out: &mut String, d: u8)
    requires
        d < 16,
    ensures
        final(out)@ == old(out)@.push(digit_char(d as nat)),
{
    proof {
        reveal_strlit("0");
        reveal_strlit("1");
        reveal_strlit("2");
        reveal_strlit("3");
        reveal_strlit("4");
        reveal_strlit("5");
        reveal_strlit("6");
        reveal_strlit("7");
        reveal_strlit("8");
        reveal_strlit("9");
        reveal_strlit("a");
        reveal_strlit("b");
        reveal_strlit("c");
        reveal_strlit("d");
        reveal_strlit("e");
        reveal_strlit("f");
    }
    let ghost start = out@;
    if d == 0 {
        out.append("0");
    } else if d == 1 {
        out.append("1");
    } else if d == 2 {
        out.append("2");
    } else if d == 3 {
        out.append("3");
    } else if d == 4 {
        out.append("4");
    } else if d == 5 {
        out.append("5");
    } else if d == 6 {
        out.append("6");
    } else if d == 7 {
        out.append("7");
    } else if d == 8 {
        out.append("8");
    } else if d == 9 {
        out.append("9");
    } else if d == 10 {
        out.append("a");
    } else if d == 11 {
        out.append("b");
    } else if d == 12 {
        out.append("c");
    } else if d == 13 {
        out.append("d");
    } else if d == 14 {
        out.append("e");
    } else {
        out.append("f");
    }
    proof {
        assert(out@ =~= start.push(digit_char(d as nat)));
    }
}

/// The characters of the digit values in `digs`, read back to front.
pub open spec fn rev_digit_chars(digs: Seq<u8>) -> Seq<char> {
    Seq::new(digs.len(), |i: int| digit_char(digs[digs.len() - 1 - i] as nat))
}

/// The decimal digit values of `v`, least significant first.
fn dec_digits_rev(v: u64) -> (result: Vec<u8>)
    ensures
        forall|t: int| 0 <= t < result@.len() ==> result@[t] < 16,
        rev_digit_chars(result@) == dec_chars(v as nat),
{
    let mut digs: Vec<u8> = Vec::new();
    let mut cur = v;
    let d0 = (cur % 10) as u8;
    digs.push(d0);
    cur = cur / 10;
    proof {
        assert(rev_digit_chars(digs@) =~= seq![digit_char((v as nat) % 10)]);
        if v < 10 {
            assert(dec_chars(v as nat) == seq![digit_char(v as nat)]);
        } else {
            assert(dec_chars(v as nat) =~= dec_chars((v as nat) / 10) + rev_digit_chars(digs@));
        }
    }
    while cur > 0
        invariant
            digs@.len() >= 1,
            forall|t: int| 0 <= t < digs@.len() ==> digs@[t] < 16,
            dec_chars(v as nat) == (if cur == 0 {
                rev_digit_chars(digs@)
            } else {
                dec_chars(cur as nat) + rev_digit_chars(digs@)
            }),
        decreases cur,
    {
        let ghost before = digs@;
        let d = (cur % 10) as u8;
        digs.push(d);
        proof {
            assert(rev_digit_chars(digs@) =~= seq![digit_char((cur as nat) % 10)]
                + rev_digit_chars(before));
            if cur >= 10 {
                assert(dec_chars(cur as nat) + rev_digit_chars(before) =~= dec_chars(
                    (cur as nat) / 10,
                ) + rev_digit_chars(digs@));
            } else {
                assert(dec_chars(cur as nat) + rev_digit_chars(before) =~= rev_digit_chars(digs@));
            }
        }
        cur = cur / 10;
    }
    digs
}

/// The minimal hexadecimal digit values of `v`, least significant first.
fn hex_digits_rev_min(v: u64) -> (result: Vec<u8>)
    ensures
        forall|t: int| 0 <= t < result@.len() ==> result@[t] < 16,
        rev_digit_chars(result@) == hex_chars_min(v as nat),
{
    let mut digs: Vec<u8> = Vec::new();
    let mut cur = v;
    let d0 = (cur % 16) as u8;
    digs.push(d0);
    cur = cur / 16;
    proof {
        assert(rev_digit_chars(digs@) =~= seq![digit_char((v as nat) % 16)]);
        if v < 16 {
            assert(hex_chars_min(v as nat) == seq![digit_char(v as nat)]);
        } else {
            assert(hex_chars_min(v as nat) =~= hex_chars_min((v as nat) / 16) + rev_digit_chars(
                digs@,
            ));
        }
    }
    while cur > 0
        invariant
            digs@.len() >= 1,
            forall|t: int| 0 <= t < digs@.len() ==> digs@[t] < 16,
            hex_chars_min(v as nat) == (if cur == 0 {
                rev_digit_chars(digs@)
            } else {
                hex_chars_min(cur as nat) + rev_digit_chars(digs@)
            }),
        decreases cur,
    {
        let ghost before = digs@;
        let d = (cur % 16) as u8;
        digs.push(d);
        proof {
            assert(rev_digit_chars(digs@) =~= seq![digit_char((cur as nat) % 16)]
                + rev_digit_chars(before));
            if cur >= 16 {
                assert(hex_chars_min(cur as nat) + rev_digit_chars(before) =~= hex_chars_min(
                    (cur as nat) / 16,
                ) + rev_digit_chars(digs@));
            } else {
                assert(hex_chars_min(cur as nat) + rev_digit_chars(before) =~= rev_digit_chars(
                    digs@,
                ));
            }
        }
        cur = cur / 16;
    }
    digs
}

/// The hexadecimal digit values of `v` zero-padded to exactly `d` digits,
/// least significant first.
fn hex_digits_rev_pad(v: u32, d: usize) -> (result: Vec<u8>)
    ensures
        result@.len() == d,
        forall|t: int| 0 <= t < result@.len() ==> result@[t] < 16,
        rev_digit_chars(result@) == hex_chars_pad(v as nat, d as nat),
{
    let mut digs: Vec<u8> = Vec::new();
    let mut cur = v;
    proof {
        assert(hex_chars_pad(v as nat, d as nat) =~= hex_chars_pad(v as nat, d as nat)
            + rev_digit_chars(digs@));
    }
    while digs.len() < d
        invariant
            digs@.len() <= d,
            forall|t: int| 0 <= t < digs@.len() ==> digs@[t] < 16,
            hex_chars_pad(v as nat, d as nat) == hex_chars_pad(
                cur as nat,
                (d - digs@.len()) as nat,
            ) + rev_digit_chars(digs@),
        decreases d - digs@.len(),
    {
        let ghost before = digs@;
        let d0 = (cur % 16) as u8;
        digs.push(d0);
        proof {
            assert(rev_digit_chars(digs@) =~= seq![digit_char((cur as nat) % 16)]
                + rev_digit_chars(before));
            assert(hex_chars_pad(cur as nat, (d - before.len()) as nat) + rev_digit_chars(before)
                =~= hex_chars_pad((cur as nat) / 16, (d - digs@.len()) as nat) + rev_digit_chars(
                digs@,
            ));
        }
        cur = cur / 16;
    }
    proof {
        assert(hex_chars_pad(cur as nat, 0) =~= Seq::<char>::empty());
        assert(hex_chars_pad(v as nat, d as nat) =~= rev_digit_chars(digs@));
    }
    digs
}

/// Append the characters of `digs`, read back to front, to `out`.
fn append_digits_rev(out: &mut String, digs: &Vec<u8>)
    requires
        forall|t: int| 0 <= t < digs@.len() ==> digs@[t] < 16,
    ensures
        final(out)@ == old(out)@ + rev_digit_chars(digs@),
{
    let ghost start = out@;
    let n = digs.len();
    let mut i: usize = 0;
    proof {
        assert(out@ =~= start + rev_digit_chars(digs@).take(0));
    }
    while i < n
        invariant
            i <= n,
            n == digs@.len(),
            forall|t: int| 0 <= t < digs@.len() ==> digs@[t] < 16,
            out@ == start + rev_digit_chars(digs@).take(i as int),
        decreases n - i,
    {
        append_digit(out, digs[n - 1 - i]);
        proof {
            assert(out@ =~= start + rev_digit_chars(digs@).take(i + 1));
        }
        i = i + 1;
    }
    proof {
        assert(rev_digit_chars(digs@).take(n as int) =~= rev_digit_chars(digs@));
    }
}

/// The decimal rendering of `v` with a minus sign in front when negative.
pub open spec fn signed_dec_chars(v: int) -> Seq<char> {
    if v < 0 {
        "-"@ + dec_chars((-v) as nat)
    } else {
        dec_chars(v as nat)
    }
}

/// The hexadecimal rendering of `v` with a `0x` prefix, and a minus sign in
/// front of the prefix when negative (the digits themselves are those of the
/// absolute value).
pub open spec fn signed_hex_chars(v: int) -> Seq<char> {
    if v < 0 {
        "-0x"@ + hex_chars_min((-v) as nat)
    } else {
        "0x"@ + hex_chars_min(v as nat)
    }
}

/// The composite display form: width, pretty binary string, unsigned and
/// signed decimal values, and unsigned and signed hexadecimal values.
pub open spec fn display_chars(s: Seq<bool>, n: nat) -> Seq<char> {
    "Bits<"@ + dec_chars(n) + ">{ "@ + grouped(bin_chars(s), 4) + " | dec "@ + dec_chars(
        scalar_u(s),
    ) + "/"@ + signed_dec_chars(scalar_s(s)) + " | hex 0x"@ + hex_chars_min(scalar_u(s)) + "/"@
        + signed_hex_chars(scalar_s(s)) + " }"@
}

impl<const SIZE: usize> Bits<SIZE> {
    /// Produces the contents of the bit vector as a string of ones and zeros.
    ///
    /// The parameter, `pretty`, determines whether or not spaces will be
    /// added to the output string for readability: one space before every
    /// fourth bit, counted from the least significant end.
    pub fn bits_string(&self, pretty: bool) -> (result: String)
        ensures
            pretty ==> result@ == grouped(bin_chars(self@), 4),
            !pretty ==> result@ == bin_chars(self@),
    {
        proof {
            reveal_strlit(" ");
            reveal_strlit("0");
            reveal_strlit("1");
        }
        let ghost cs = bin_chars(self@);
        let mut out = String::new();
        let mut i: usize = 0;
        while i < SIZE
            invariant
                i <= SIZE,
                cs == bin_chars(self@),
                cs.len() == SIZE,
                pretty ==> out@ == spaced_prefix(cs, i as nat, 4),
                !pretty ==> out@ == cs.take(i as int),
            decreases SIZE - i,
        {
            proof {
                reveal_strlit(" ");
                reveal_strlit("0");
                reveal_strlit("1");
            }
            let ghost before = out@;
            if pretty && i > 0 && (SIZE - i) % 4 == 0 {
                out.append(" ");
            }
            if self.0[i] {
                out.append("1");
            } else {
                out.append("0");
            }
            proof {
                if pretty {
                    assert(out@ =~= spaced_prefix(cs, (i + 1) as nat, 4));
                } else {
                    assert(out@ =~= cs.take(i + 1));
                }
            }
            i = i + 1;
        }
        proof {
            if pretty {
                lemma_spaced_is_grouped(cs, 4);
            } else {
                assert(cs.take(SIZE as int) =~= cs);
            }
        }
        out
    }

    /// Creates a nicely spaced hexadecimal string for the value of the bit
    /// vector, interpreted as an unsigned integer: one hex digit for every
    /// four bits (rounded up), grouped into pairs from the least significant
    /// end and separated by single spaces.
    pub fn pretty_uhex_string(&self) -> (result: String)
        ensures
            result@ == grouped(hex_chars_pad(scalar_u(self@), hex_digits(SIZE as nat)), 2),
    {
        let digits: usize = SIZE / 4 + (if SIZE % 4 == 0 {
            0
        } else {
            1
        });
        let v = self.unsigned_value();
        let digs = hex_digits_rev_pad(v, digits);
        let ghost cs = hex_chars_pad(scalar_u(self@), hex_digits(SIZE as nat));
        let mut out = String::new();
        let mut i: usize = 0;
        while i < digits
            invariant
                i <= digits,
                digs@.len() == digits,
                forall|t: int| 0 <= t < digs@.len() ==> digs@[t] < 16,
                cs == rev_digit_chars(digs@),
                cs.len() == digits,
                out@ == spaced_prefix(cs, i as nat, 2),
            decreases digits - i,
        {
            proof {
                reveal_strlit(" ");
            }
            if i > 0 && (digits - i) % 2 == 0 {
                out.append(" ");
            }
            append_digit(&mut out, digs[digits - 1 - i]);
            proof {
                assert(out@ =~= spaced_prefix(cs, (i + 1) as nat, 2));
            }
            i = i + 1;
        }
        proof {
            lemma_spaced_is_grouped(cs, 2);
        }
        out
    }

    /// A single string carrying the width, the pretty binary string, the
    /// unsigned and signed decimal values, and the unsigned and signed
    /// hexadecimal values of the vector.
    pub fn display_string(&self) -> (result: String)
        requires
            SIZE >= 1,
        ensures
            result@ == display_chars(self@, SIZE as nat),
    {
        let mut out = String::new();
        out.append("Bits<");
        let ndigs = dec_digits_rev(SIZE as u64);
        append_digits_rev(&mut out, &ndigs);
        out.append(">{ ");
        let bs = self.bits_string(true);
        out.append(bs.as_str());
        out.append(" | dec ");
        let u = self.unsigned_value();
        let udigs = dec_digits_rev(u as u64);
        append_digits_rev(&mut out, &udigs);
        out.append("/");
        let s = self.signed_value();
        if s < 0 {
            out.append("-");
            let sdigs = dec_digits_rev((-(s as i64)) as u64);
            append_digits_rev(&mut out, &sdigs);
        } else {
            let sdigs = dec_digits_rev(s as u64);
            append_digits_rev(&mut out, &sdigs);
        }
        out.append(" | hex 0x");
        let uhex = hex_digits_rev_min(u as u64);
        append_digits_rev(&mut out, &uhex);
        out.append("/");
        if s < 0 {
            out.append("-0x");
            let shex = hex_digits_rev_min((-(s as i64)) as u64);
            append_digits_rev(&mut out, &shex);
        } else {
            out.append("0x");
            let shex = hex_digits_rev_min(s as u64);
            append_digits_rev(&mut out, &shex);
        }
        out.append(" }");
        proof {
            assert(out@ =~= display_chars(self@, SIZE as nat));
        }
        out
    }
}

} // verus!
