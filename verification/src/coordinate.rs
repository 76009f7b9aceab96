//! A coordinate on the two-dimensional game board.

use vstd::prelude::*;

verus! {

broadcast use vstd::string::is_ascii_spec_bytes;

/// The character is a decimal digit.
pub open spec fn spec_is_digit(c: char) -> bool {
    '0' <= c <= '9'
}

/// The numeric value of a sequence of decimal digits, most significant
/// digit first.
pub open spec fn spec_digits_val(s: Seq<char>) -> int
    decreases s.len(),
{
    if s.len() == 0 {
        0
    } else {
        spec_digits_val(s.drop_last()) * 10 + (s.last() as int - '0' as int)
    }
}

/// The text is a valid decimal numeral that fits a machine word: at
/// least one character, every character a digit, and the value not too
/// large.
pub open spec fn spec_valid_decimal(s: Seq<char>) -> bool {
    &&& s.len() >= 1
    &&& forall|i: int| 0 <= i < s.len() ==> spec_is_digit(#[trigger] s[i])
    &&& spec_digits_val(s) <= usize::MAX
}

/// The value of a digit sequence is never negative.
proof fn lemma_digits_val_nonneg(s: Seq<char>)
    requires
        forall|i: int| 0 <= i < s.len() ==> spec_is_digit(#[trigger] s[i]),
    ensures
        spec_digits_val(s) >= 0,
    decreases s.len(),
{
    if s.len() > 0 {
        lemma_digits_val_nonneg(s.drop_last());
    }
}

/// Every prefix of a digit sequence has at most the value of the whole.
proof fn lemma_digits_val_prefix(s: Seq<char>, i: int)
    requires
        forall|k: int| 0 <= k < s.len() ==> spec_is_digit(#[trigger] s[k]),
        0 <= i <= s.len(),
    ensures
        spec_digits_val(s.take(i)) <= spec_digits_val(s),
    decreases s.len() - i,
{
    if i < s.len() {
        assert(s.take(i + 1).drop_last() =~= s.take(i));
        assert(s.take(i + 1).last() == s[i]);
        lemma_digits_val_nonneg(s.take(i));
        assert(spec_digits_val(s.take(i + 1)) == spec_digits_val(s.take(i)) * 10 + (s[i] as int
            - '0' as int));
        assert(spec_digits_val(s.take(i)) * 10 >= spec_digits_val(s.take(i))) by (nonlinear_arith)
            requires
                spec_digits_val(s.take(i)) >= 0,
        ;
        lemma_digits_val_prefix(s, i + 1);
    } else {
        assert(s.take(i) =~= s);
    }
}

/// Parse a decimal machine word.
///
/// Succeeds exactly on non-empty all-digit text whose value fits.
fn parse_usize(s: &str) -> (r: Option<usize>)
    ensures
        r is Some <==> spec_valid_decimal(s@),
        r matches Some(v) ==> v as int == spec_digits_val(s@),
{
    if !s.is_ascii() {
        proof {
            assert(!vstd::utf8::is_ascii_chars(s@));
            let i = choose|i: int| 0 <= i < s@.len() && !('\0' <= #[trigger] s@[i] <= '\u{7f}');
            assert(!spec_is_digit(s@[i]));
        }
        return None;
    }
    let b = s.as_bytes();
    proof {
        assert(vstd::string::is_ascii(s));
        assert(b@ =~= Seq::new(s@.len(), |i: int| s@.index(i) as u8));
    }
    let n = b.len();
    if n == 0 {
        return None;
    }
    let mut v: usize = 0;
    let mut i: usize = 0;
    while i < n
        invariant
            vstd::utf8::is_ascii_chars(s@),
            b@ == Seq::new(s@.len(), |k: int| s@.index(k) as u8),
            n == s@.len(),
            0 < n,
            i <= n,
            forall|k: int| 0 <= k < i ==> spec_is_digit(#[trigger] s@[k]),
            v as int == spec_digits_val(s@.take(i as int)),
        decreases n - i,
    {
        let c = b[i];
        proof {
            assert(b@[i as int] == s@[i as int] as u8);
            assert('\0' <= s@[i as int] <= '\u{7f}');
        }
        if c < 48 || c > 57 {
            proof {
                assert(!spec_is_digit(s@[i as int]));
            }
            return None;
        }
        proof {
            assert(spec_is_digit(s@[i as int]));
        }
        let d = (c - 48) as usize;
        let next = match v.checked_mul(10) {
            Some(m) => m.checked_add(d),
            None => None,
        };
        match next {
            Some(nv) => {
                proof {
                    assert(s@.take(i + 1).drop_last() =~= s@.take(i as int));
                    assert(s@.take(i + 1).last() == s@[i as int]);
                    assert(d as int == s@[i as int] as int - '0' as int);
                }
                v = nv;
                i = i + 1;
            },
            None => {
                proof {
                    // The digits read so far already overflow, so the
                    // whole numeral cannot fit, unless some later
                    // character is no digit at all.
                    if forall|k: int| 0 <= k < s@.len() ==> spec_is_digit(#[trigger] s@[k]) {
                        assert(s@.take(i + 1).drop_last() =~= s@.take(i as int));
                        assert(s@.take(i + 1).last() == s@[i as int]);
                        assert(spec_digits_val(s@.take(i + 1)) == (v as int) * 10 + (
                        s@[i as int] as int - '0' as int));
                        assert(spec_digits_val(s@.take(i + 1)) > usize::MAX);
                        lemma_digits_val_prefix(s@, i + 1);
                    }
                }
                return None;
            },
        }
    }
    proof {
        assert(s@.take(n as int) =~= s@);
    }
    Some(v)
}

/// Possible errors when parsing a coordinate from text.
#[derive(Clone, Copy, Debug, Eq, PartialEq, Structural)]
pub enum CoordinateParseError {
    /// The input did not consist of exactly two numbers.
    NotTwoNumbers,
    /// The first number was not a valid x value.
    InvalidXValue,
    /// The second number was not a valid y value.
    InvalidYValue,
}

/// A coordinate of a field on the game board, addressed by column `x`
/// and row `y`.
#[derive(Clone, Copy, Debug, Eq, Hash, PartialEq, Structural)]
pub struct Coordinate {
    /// The column.
    pub x: usize,
    /// The row.
    pub y: usize,
}

impl Coordinate {
    /// Create a new coordinate.
    pub fn new(x: usize, y: usize) -> (r: Self)
        ensures
            r.x() == x,
            r.y() == y,
    {
        Self { x, y }
    }

    /// The x component.
    pub open spec fn spec_x(&self) -> usize {
        self.x
    }

    /// The y component.
    pub open spec fn spec_y(&self) -> usize {
        self.y
    }

    /// Return the x component.
    #[verifier::when_used_as_spec(spec_x)]
    pub fn x(&self) -> (r: usize)
        ensures
            r == self.spec_x(),
    {
        self.x
    }

    /// Return the y component.
    #[verifier::when_used_as_spec(spec_y)]
    pub fn y(&self) -> (r: usize)
        ensures
            r == self.spec_y(),
    {
        self.y
    }

    /// Parse a coordinate from a pair of decimal numerals, x first.
    ///
    /// Reports an invalid x value when the first text is no valid
    /// numeral, and an invalid y value when only the second is not.
    pub fn from_str_pair(pair: (&str, &str)) -> (r: Result<Self, CoordinateParseError>)
        ensures
            (r is Ok) <==> (spec_valid_decimal(pair.0@) && spec_valid_decimal(pair.1@)),
            r matches Ok(c) ==> c.x as int == spec_digits_val(pair.0@) && c.y as int
                == spec_digits_val(pair.1@),
            r == Err::<Self, CoordinateParseError>(CoordinateParseError::InvalidXValue) <==> !spec_valid_decimal(pair.0@),
            r == Err::<Self, CoordinateParseError>(CoordinateParseError::InvalidYValue) <==> (
            spec_valid_decimal(pair.0@) && !spec_valid_decimal(pair.1@)),
    {
        let (x_text, y_text) = pair;
        match parse_usize(x_text) {
            None => Err(CoordinateParseError::InvalidXValue),
            Some(x) => match parse_usize(y_text) {
                None => Err(CoordinateParseError::InvalidYValue),
                Some(y) => Ok(Self::new(x, y)),
            },
        }
    }
}

} // verus!
