use vstd::prelude::*;

verus! {

/// The byte `-`.
pub const MINUS: u8 = 45;

/// The byte `.`.
pub const POINT: u8 = 46;

/// The byte `0`.
pub const ZERO_DIGIT: u8 = 48;

pub open spec fn is_digit(b: u8) -> bool {
    ZERO_DIGIT <= b && b <= 57
}

pub open spec fn digit_value(b: u8) -> int {
    b - ZERO_DIGIT
}

/// Tenths denoted by an unsigned token `digit{1,2} ('.' digit)?`.
pub open spec fn unsigned_tenths(t: Seq<u8>) -> Option<int> {
    if t.len() == 1 && is_digit(t[0]) {
        Some(10 * digit_value(t[0]))
    } else if t.len() == 2 && is_digit(t[0]) && is_digit(t[1]) {
        Some(100 * digit_value(t[0]) + 10 * digit_value(t[1]))
    } else if t.len() == 3 && is_digit(t[0]) && t[1] == POINT && is_digit(t[2]) {
        Some(10 * digit_value(t[0]) + digit_value(t[2]))
    } else if t.len() == 4 && is_digit(t[0]) && is_digit(t[1]) && t[2] == POINT && is_digit(
        t[3],
    ) {
        Some(100 * digit_value(t[0]) + 10 * digit_value(t[1]) + digit_value(t[3]))
    } else {
        None
    }
}

/// Tenths denoted by a token `-? digit{1,2} ('.' digit)?`; `None` outside that grammar.
pub open spec fn decode_tenths(t: Seq<u8>) -> Option<int> {
    if t.len() > 0 && t[0] == MINUS {
        match unsigned_tenths(t.drop_first()) {
            Some(v) => Some(-v),
            None => None,
        }
    } else {
        unsigned_tenths(t)
    }
}

/// A decimal number with one fractional digit, held as a count of tenths.
#[derive(Debug, Clone, Copy, PartialEq, Eq, Structural, PartialOrd, Ord)]
pub struct FixedPointNum(pub i64);

/// A value token outside the grammar `-? digit{1,2} ('.' digit)?`.
#[derive(Debug, Clone, Copy, PartialEq, Eq, Structural)]
pub struct ParseError;

pub proof fn lemma_decoded_range(t: Seq<u8>)
    ensures
        decode_tenths(t) matches Some(v) ==> -999 <= v <= 999,
{
}

impl FixedPointNum {
    /// Decodes a value token into tenths, failing on anything outside the grammar.
    pub fn parse(input: &[u8]) -> (r: Result<FixedPointNum, ParseError>)
        ensures
            match decode_tenths(input@) {
                Some(v) => r == Ok::<FixedPointNum, ParseError>(FixedPointNum(v as i64)),
                None => r == Err::<FixedPointNum, ParseError>(ParseError),
            },
    {
        let n = input.len();
        let negative = n > 0 && input[0] == MINUS;
        let s: usize = if negative {
            1
        } else {
            0
        };
        let body = vstd::slice::slice_subrange(input, s, n);
        proof {
            if negative {
                assert(body@ =~= input@.drop_first());
            } else {
                assert(body@ =~= input@);
            }
        }
        let m = body.len();
        let magnitude: i64;
        if m == 1 && is_digit_byte(body[0]) {
            magnitude = 10 * digit_of(body[0]);
        } else if m == 2 && is_digit_byte(body[0]) && is_digit_byte(body[1]) {
            magnitude = 100 * digit_of(body[0]) + 10 * digit_of(body[1]);
        } else if m == 3 && is_digit_byte(body[0]) && body[1] == POINT && is_digit_byte(body[2]) {
            magnitude = 10 * digit_of(body[0]) + digit_of(body[2]);
        } else if m == 4 && is_digit_byte(body[0]) && is_digit_byte(body[1]) && body[2] == POINT
            && is_digit_byte(body[3]) {
            magnitude = 100 * digit_of(body[0]) + 10 * digit_of(body[1]) + digit_of(body[3]);
        } else {
            return Err(ParseError);
        }
        if negative {
            Ok(FixedPointNum(-magnitude))
        } else {
            Ok(FixedPointNum(magnitude))
        }
    }
}

fn is_digit_byte(b: u8) -> (r: bool)
    ensures
        r == is_digit(b),
{
    ZERO_DIGIT <= b && b <= 57
}

fn digit_of(b: u8) -> (r: i64)
    requires
        is_digit(b),
    ensures
        r == digit_value(b),
        0 <= r <= 9,
{
    (b - ZERO_DIGIT) as i64
}

} // verus!
