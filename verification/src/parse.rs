//! Construction from a textual binary literal.
use vstd::prelude::*;
use vstd::string::StrSliceExecFns;
use crate::bits::{Bits, BitsError};

verus! {

/// `s` with every space removed.
pub open spec fn strip_spaces(s: Seq<char>) -> Seq<char>
    decreases s.len(),
{
    if s.len() == 0 {
        Seq::empty()
    } else if s.last() == ' ' {
        strip_spaces(s.drop_last())
    } else {
        strip_spaces(s.drop_last()).push(s.last())
    }
}

/// A character a binary literal may hold, besides spaces.
pub open spec fn is_bin_char(c: char) -> bool {
    c == '0' || c == '1'
}

/// A binary literal is accepted for width `n` when, after the spaces are
/// removed, it holds at most `n` characters and nothing but zeros and ones.
pub open spec fn parse_ok(s: Seq<char>, n: nat) -> bool {
    strip_spaces(s).len() <= n && (forall|i: int|
        0 <= i < strip_spaces(s).len() ==> is_bin_char(strip_spaces(s)[i]))
}

/// The bits a stripped literal of at most `n` characters denotes: its
/// characters fill the most significant positions, and positions it leaves
/// unfilled are clear.
pub open spec fn parsed_bits(s: Seq<char>, n: nat) -> Seq<bool> {
    Seq::new(n, |i: int| i < strip_spaces(s).len() && strip_spaces(s)[i] == '1')
}

impl<const SIZE: usize> Bits<SIZE> {
    /// Create a new `Bits` by parsing a textual binary literal.
    ///
    /// Spaces may appear anywhere and are ignored. After the spaces are
    /// removed, the literal must hold only the characters '0' and '1' and at
    /// most `SIZE` of them; anything else fails with an invalid-input error.
    /// The characters are written left-aligned into the most significant end;
    /// when the literal is shorter than `SIZE`, the unfilled low-order
    /// positions are implicitly zero.
    #[verifier::loop_isolation(false)]
    pub fn try_from(input: &str) -> (result: Result<Self, BitsError>)
        ensures
            parse_ok(input@, SIZE as nat) ==> (result matches Ok(b) && b@ == parsed_bits(
                input@,
                SIZE as nat,
            )),
            !parse_ok(input@, SIZE as nat) ==> (result matches Err(e) && e
                == BitsError::InvalidInputString),
    {
        let n = input.unicode_len();
        let mut stripped: Vec<char> = Vec::new();
        let mut i: usize = 0;
        proof {
            assert(input@.take(0) =~= Seq::<char>::empty());
        }
        while i < n
            invariant
                i <= n,
                n == input@.len(),
                stripped@ == strip_spaces(input@.take(i as int)),
            decreases n - i,
        {
            let c = input.get_char(i);
            proof {
                assert(input@.take(i + 1).drop_last() =~= input@.take(i as int));
                assert(input@.take(i + 1).last() == input@[i as int]);
            }
            if c != ' ' {
                stripped.push(c);
            }
            i = i + 1;
        }
        proof {
            assert(input@.take(n as int) =~= input@);
        }
        if stripped.len() > SIZE {
            return Err(BitsError::InvalidInputString);
        }
        let m = stripped.len();
        let mut out = Bits::new();
        let mut j: usize = 0;
        while j < m
            invariant
                j <= m <= SIZE,
                m == stripped@.len(),
                stripped@ == strip_spaces(input@),
                out@.len() == SIZE,
                forall|t: int| 0 <= t < j ==> is_bin_char(stripped@[t]),
                forall|t: int| 0 <= t < j ==> out@[t] == (stripped@[t] == '1'),
                forall|t: int| j <= t < SIZE ==> !out@[t],
            decreases m - j,
        {
            let c = stripped[j];
            if c != '0' && c != '1' {
                return Err(BitsError::InvalidInputString);
            }
            let b = c == '1';
            out.0[j] = b;
            j = j + 1;
        }
        proof {
            assert(out@ =~= parsed_bits(input@, SIZE as nat));
        }
        Ok(out)
    }
}

} // verus!
