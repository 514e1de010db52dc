//! Numbers of the language are IEEE-754 binary64 values. The library stores
//! each of them as its 64-bit encoding and never needs floating-point
//! hardware itself:
//!
//! * ordering, equality and negation are decided on the encoding, below;
//! * the operations that round (reading a literal, `+ - * /`) and the
//!   rendering of a number as text are done by closures that the caller hands
//!   in. The contracts of the library hold for every mathematical function
//!   that such a closure computes (`converts`, `computes`, `formats`): they
//!   say what the library makes of the closure's answers, whatever these are.

use vstd::prelude::*;

verus! {

/// Text as the contracts see it.
pub type Text = Seq<char>;

/// The sign bit of an encoding.
pub const SIGN_BIT: u64 = 0x8000_0000_0000_0000;

/// The encoding of positive infinity: all exponent bits set, no fraction bit.
pub const INFINITY_BITS: u64 = 0x7ff0_0000_0000_0000;

/// The encoding without its sign bit.
pub open spec fn magnitude(bits: u64) -> int {
    if bits >= SIGN_BIT {
        bits - SIGN_BIT
    } else {
        bits as int
    }
}

/// An encoding is a NaN when its exponent bits are all set and some fraction
/// bit is set, that is when its magnitude lies above that of infinity.
pub open spec fn is_nan(bits: u64) -> bool {
    magnitude(bits) > INFINITY_BITS
}

/// Position of a non-NaN encoding on the number line: encodings with the sign
/// bit count downwards from zero, the others upwards, and both zeros meet at 0.
pub open spec fn rank(bits: u64) -> int {
    if bits >= SIGN_BIT {
        -magnitude(bits)
    } else {
        magnitude(bits)
    }
}

/// IEEE-754 `<`: false as soon as one side is a NaN.
pub open spec fn less(a: u64, b: u64) -> bool {
    !is_nan(a) && !is_nan(b) && rank(a) < rank(b)
}

/// IEEE-754 `==`: a NaN equals nothing, not even itself; `0.0 == -0.0`.
pub open spec fn same_number(a: u64, b: u64) -> bool {
    !is_nan(a) && !is_nan(b) && rank(a) == rank(b)
}

/// IEEE-754 `<=`.
pub open spec fn less_or_same(a: u64, b: u64) -> bool {
    !is_nan(a) && !is_nan(b) && rank(a) <= rank(b)
}

/// IEEE-754 negation flips the sign bit and nothing else, NaNs included.
pub open spec fn negated(bits: u64) -> u64 {
    if bits >= SIGN_BIT {
        (bits - SIGN_BIT) as u64
    } else {
        (bits + SIGN_BIT) as u64
    }
}

/// Whether an encoding has the sign bit, and its magnitude.
fn split(bits: u64) -> (parts: (bool, u64))
    ensures
        parts.0 == (bits >= SIGN_BIT),
        parts.1 == magnitude(bits),
{
    if bits >= SIGN_BIT {
        (true, bits - SIGN_BIT)
    } else {
        (false, bits)
    }
}

/// Whether an encoding is a NaN.
pub fn number_is_nan(bits: u64) -> (nan: bool)
    ensures
        nan == is_nan(bits),
{
    split(bits).1 > INFINITY_BITS
}

/// IEEE-754 `<` on two encodings.
pub fn number_less(a: u64, b: u64) -> (holds: bool)
    ensures
        holds == less(a, b),
{
    if number_is_nan(a) || number_is_nan(b) {
        return false;
    }
    let (a_negative, a_magnitude) = split(a);
    let (b_negative, b_magnitude) = split(b);
    if a_negative {
        if b_negative {
            b_magnitude < a_magnitude
        } else {
            a_magnitude > 0 || b_magnitude > 0
        }
    } else {
        !b_negative && a_magnitude < b_magnitude
    }
}

/// IEEE-754 `==` on two encodings.
pub fn number_same(a: u64, b: u64) -> (holds: bool)
    ensures
        holds == same_number(a, b),
{
    if number_is_nan(a) || number_is_nan(b) {
        return false;
    }
    let (a_negative, a_magnitude) = split(a);
    let (b_negative, b_magnitude) = split(b);
    if a_negative == b_negative {
        a_magnitude == b_magnitude
    } else {
        a_magnitude == 0 && b_magnitude == 0
    }
}

/// IEEE-754 `<=` on two encodings.
pub fn number_less_or_same(a: u64, b: u64) -> (holds: bool)
    ensures
        holds == less_or_same(a, b),
{
    number_less(a, b) || number_same(a, b)
}

/// The encoding of the negated number.
pub fn number_negated(bits: u64) -> (flipped: u64)
    ensures
        flipped == negated(bits),
{
    if bits >= SIGN_BIT {
        bits - SIGN_BIT
    } else {
        bits + SIGN_BIT
    }
}

/// One rounding operation on two encodings, asked of the arithmetic unit.
#[derive(Clone, Copy, Debug, PartialEq, Eq)]
pub enum Arithmetic {
    Add(u64, u64),
    Subtract(u64, u64),
    Multiply(u64, u64),
    Divide(u64, u64),
}

/// A decimal digit.
pub open spec fn is_digit(c: char) -> bool {
    '0' <= c <= '9'
}

/// The shape of a number literal: it starts with a digit and holds digits
/// and at most one `.`.
pub open spec fn is_number_lexeme(text: Text) -> bool {
    &&& text.len() > 0
    &&& is_digit(text[0])
    &&& forall|i: int| 0 <= i < text.len() ==> is_digit(#[trigger] text[i]) || text[i] == '.'
    &&& forall|i: int, j: int|
        0 <= i < text.len() && 0 <= j < text.len() && #[trigger] text[i] == '.' && #[trigger] text[j]
            == '.' ==> i == j
}

/// An arithmetic unit can be asked for every operation on every two
/// encodings.
pub open spec fn arithmetic_ok<A: Fn(Arithmetic) -> u64>(unit: A) -> bool {
    forall|request: Arithmetic| unit.requires((request,))
}

/// `arith` is the function that an arithmetic unit computes: whatever the
/// unit answers to a request is what `arith` gives for it.
pub open spec fn computes<A: Fn(Arithmetic) -> u64>(unit: A, arith: spec_fn(Arithmetic) -> u64)
    -> bool {
    forall|request: Arithmetic, reply: u64| #[trigger]
        unit.ensures((request,), reply) ==> reply == arith(request)
}

/// A literal converter can be asked for the encoding of every number
/// lexeme.
pub open spec fn conversion_ok<C: Fn(String) -> u64>(convert: C) -> bool {
    forall|lexeme: String| is_number_lexeme(lexeme@) ==> convert.requires((lexeme,))
}

/// `value` is the function from the text of a lexeme to an encoding that a
/// literal converter computes.
pub open spec fn converts<C: Fn(String) -> u64>(convert: C, value: spec_fn(Text) -> u64) -> bool {
    forall|lexeme: String, bits: u64| #[trigger]
        convert.ensures((lexeme,), bits) ==> bits == value(lexeme@)
}

/// A number formatter can be asked for the text of every encoding.
pub open spec fn formatting_ok<F: Fn(u64) -> String>(format: F) -> bool {
    forall|bits: u64| format.requires((bits,))
}

/// `render` is the function from an encoding to its text that a number
/// formatter computes.
pub open spec fn formats<F: Fn(u64) -> String>(format: F, render: spec_fn(u64) -> Text) -> bool {
    forall|bits: u64, text: String| #[trigger]
        format.ensures((bits,), text) ==> text@ == render(bits)
}

} // verus!
