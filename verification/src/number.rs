//! The puzzle's alphabet: a digit restricted to the range 1..=9.

use vstd::prelude::*;
use vstd::string::StringSliceAdditionalSpecFns;

verus! {

/// A Sudoku digit: an integer in 1..=9, immutable once constructed.
#[derive(Clone, Copy, Debug, PartialEq, Eq, Structural, Hash)]
pub struct Number(pub u8);

impl View for Number {
    type V = int;

    open spec fn view(&self) -> int {
        self.0 as int
    }
}

impl Number {
    /// The digit is within the puzzle's alphabet.
    pub open spec fn wf(self) -> bool {
        1 <= self.0 <= 9
    }

    pub fn new(num: u8) -> (r: Self)
        requires
            1 <= num <= 9,
        ensures
            r.wf(),
            r@ == num,
    {
        Number(num)
    }

    pub fn try_new(num: u8) -> (r: Option<Self>)
        ensures
            r is Some <==> 1 <= num <= 9,
            r is Some ==> r->Some_0.wf() && r->Some_0@ == num,
    {
        if num < 1 || num > 9 {
            None
        } else {
            Some(Number(num))
        }
    }

    pub fn number(self) -> (r: u8)
        ensures
            r == self.0,
    {
        self.0
    }

    /// Parses a textual token as a digit.  A token that is not an integer
    /// is an invalid number, and so — deliberately — is an integer whose
    /// value does not fit in a byte: the out-of-range error carries the
    /// offending value as a byte, so anything larger counts as not
    /// parseable rather than as out of range.  An integer 0 or 10..=255
    /// is out of range.
    pub fn parse(s: &str) -> (r: Result<Number, ParseNumberError>)
        ensures
            parse_number_result(s.spec_bytes(), r),
    {
        let bytes: &[u8] = s.as_bytes();
        let n: usize = bytes.len();
        let start: usize = if n > 0 && bytes[0] == 43u8 {
            1
        } else {
            0
        };
        let ghost d: Seq<u8> = digits_of(s.spec_bytes());
        proof {
            assert(d =~= bytes@.skip(start as int));
        }
        if n == start {
            return Err(ParseNumberError::InvalidNumber);
        }
        let mut acc: u32 = 0;
        let mut i: usize = start;
        while i < n
            invariant
                start <= i <= n,
                n == bytes@.len(),
                bytes@ == s.spec_bytes(),
                d == digits_of(s.spec_bytes()),
                d == bytes@.skip(start as int),
                d.len() == n - start,
                forall|j: int| 0 <= j < i - start ==> is_digit_byte(#[trigger] d[j]),
                acc == token_value(d.take(i - start)),
                acc <= 255,
            decreases n - i,
        {
            let b: u8 = bytes[i];
            if b < 48 || b > 57 {
                assert(!is_digit_byte(d[i - start]));
                return Err(ParseNumberError::InvalidNumber);
            }
            acc = acc * 10 + (b - 48) as u32;
            proof {
                assert(d.take(i - start + 1).drop_last() =~= d.take(i - start));
                assert(d.take(i - start + 1).last() == d[i - start]);
            }
            if acc > 255 {
                proof {
                    if forall|j: int| 0 <= j < d.len() ==> is_digit_byte(#[trigger] d[j]) {
                        lemma_token_value_prefix_le(d, i - start + 1);
                    }
                }
                return Err(ParseNumberError::InvalidNumber);
            }
            i = i + 1;
        }
        proof {
            assert(d.take(n - start) =~= d);
        }
        if acc < 1 || acc > 9 {
            return Err(ParseNumberError::OutOfRange(acc as u8));
        }
        Ok(Number(acc as u8))
    }
}

impl core::str::FromStr for Number {
    type Err = ParseNumberError;

    fn from_str(s: &str) -> Result<Number, ParseNumberError> {
        Number::parse(s)
    }
}

/// How constructing a digit from text can fail.
#[derive(Clone, Copy, Debug, PartialEq, Eq, Structural)]
pub enum ParseNumberError {
    /// The token is an integer, but outside 1..=9.
    OutOfRange(u8),
    /// The token is not an integer that fits in a byte.
    InvalidNumber,
}

/// An ASCII decimal digit.
pub open spec fn is_digit_byte(b: u8) -> bool {
    48 <= b <= 57
}

/// The digits of an integer token: the token with an optional leading '+'
/// sign removed.
pub open spec fn digits_of(s: Seq<u8>) -> Seq<u8> {
    if s.len() > 0 && s[0] == 43u8 {
        s.drop_first()
    } else {
        s
    }
}

/// The token is a well-formed non-negative integer.
pub open spec fn is_number_token(s: Seq<u8>) -> bool {
    &&& digits_of(s).len() > 0
    &&& forall|i: int| 0 <= i < digits_of(s).len() ==> is_digit_byte(#[trigger] digits_of(s)[i])
}

/// The value denoted by a sequence of decimal digits (most significant
/// first).
pub open spec fn token_value(d: Seq<u8>) -> int
    decreases d.len(),
{
    if d.len() == 0 {
        0
    } else {
        token_value(d.drop_last()) * 10 + (d.last() - 48)
    }
}

/// What `Number::parse` returns for a token with the given bytes.
pub open spec fn parse_number_result(s: Seq<u8>, r: Result<Number, ParseNumberError>) -> bool {
    let d = digits_of(s);
    let v = token_value(d);
    if !is_number_token(s) || v > 255 {
        r == Result::<Number, ParseNumberError>::Err(ParseNumberError::InvalidNumber)
    } else if 1 <= v <= 9 {
        r is Ok && r->Ok_0.wf() && r->Ok_0@ == v
    } else {
        r == Result::<Number, ParseNumberError>::Err(ParseNumberError::OutOfRange(v as u8))
    }
}

proof fn lemma_token_value_nonneg(d: Seq<u8>)
    requires
        forall|i: int| 0 <= i < d.len() ==> is_digit_byte(#[trigger] d[i]),
    ensures
        token_value(d) >= 0,
    decreases d.len(),
{
    if d.len() > 0 {
        lemma_token_value_nonneg(d.drop_last());
    }
}

/// For an all-digit sequence, the value of a prefix never exceeds the value
/// of the whole.
proof fn lemma_token_value_prefix_le(d: Seq<u8>, k: int)
    requires
        0 <= k <= d.len(),
        forall|i: int| 0 <= i < d.len() ==> is_digit_byte(#[trigger] d[i]),
    ensures
        token_value(d.take(k)) <= token_value(d),
    decreases d.len() - k,
{
    if k == d.len() {
        assert(d.take(k) =~= d);
    } else {
        lemma_token_value_prefix_le(d, k + 1);
        assert(d.take(k + 1).drop_last() =~= d.take(k));
        lemma_token_value_nonneg(d.take(k));
    }
}

} // verus!
