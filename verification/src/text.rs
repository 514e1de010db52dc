//! Small tools for building and reading text.

use vstd::prelude::*;
use vstd::std_specs::iter::IteratorSpec;
use vstd::string::StrSliceExecFns;
use crate::number::Text;

verus! {

/// `String::push` of the standard library appends one character to a
/// string: the string afterwards is the string before with `ch` at its end.
/// This is assumed of the library, not proved.
pub assume_specification[ std::string::String::push ](text: &mut std::string::String, ch: char)
    ensures
        final(text)@ == old(text)@.push(ch),
;

/// The characters of a string slice.
pub(crate) fn chars_of(text: &str) -> (chars: Vec<char>)
    ensures
        chars@ == text@,
{
    let mut chars: Vec<char> = Vec::new();
    let mut rest = text.chars();
    loop
        invariant
            chars@ + rest.remaining() == text@,
            rest.decrease() is Some,
        decreases rest.decrease()->0,
    {
        broadcast use vstd::string::next_postcondition;
        let ghost before = rest.remaining();
        match rest.next() {
            None => {
                assert(chars@ + before =~= chars@);
                return chars;
            },
            Some(c) => {
                assert(chars@.push(c) + before.drop_first() =~= chars@ + before);
                chars.push(c);
            },
        }
    }
}

/// The text that `chars` holds from `from` up to, not including, `to`.
pub(crate) fn text_between(chars: &Vec<char>, from: usize, to: usize) -> (text: String)
    requires
        from <= to <= chars.len(),
    ensures
        text@ == chars@.subrange(from as int, to as int),
{
    let mut text = String::new();
    let mut at: usize = from;
    while at < to
        invariant
            from <= at <= to <= chars.len(),
            text@ == chars@.subrange(from as int, at as int),
        decreases to - at,
    {
        text.push(chars[at]);
        at = at + 1;
        assert(chars@.subrange(from as int, at as int) =~= chars@.subrange(
            from as int,
            at as int - 1,
        ).push(chars@[at as int - 1]));
    }
    text
}

/// Whether `chars` holds exactly `word` from `from` up to `to`.
pub(crate) fn is_word(chars: &Vec<char>, from: usize, to: usize, word: &str) -> (same: bool)
    requires
        from <= to <= chars.len(),
    ensures
        same == (chars@.subrange(from as int, to as int) == word@),
{
    let length = word.unicode_len();
    if length != to - from {
        return false;
    }
    let mut at: usize = 0;
    while at < length
        invariant
            from <= to <= chars.len(),
            length == to - from,
            length == word@.len(),
            at <= length,
            forall|i: int| 0 <= i < at ==> chars@[from + i] == word@[i],
        decreases length - at,
    {
        if chars[from + at] != word.get_char(at) {
            assert(chars@.subrange(from as int, to as int)[at as int] != word@[at as int]);
            return false;
        }
        at = at + 1;
    }
    assert(chars@.subrange(from as int, to as int) =~= word@);
    true
}

/// The character of a decimal digit.
pub open spec fn digit_char(digit: nat) -> char {
    if digit == 0 {
        '0'
    } else if digit == 1 {
        '1'
    } else if digit == 2 {
        '2'
    } else if digit == 3 {
        '3'
    } else if digit == 4 {
        '4'
    } else if digit == 5 {
        '5'
    } else if digit == 6 {
        '6'
    } else if digit == 7 {
        '7'
    } else if digit == 8 {
        '8'
    } else {
        '9'
    }
}

/// A natural number in decimal digits, without leading zeros.
pub open spec fn decimal_text(n: nat) -> Text
    decreases n,
{
    if n < 10 {
        seq![digit_char(n)]
    } else {
        decimal_text(n / 10).push(digit_char(n % 10))
    }
}

fn digit_char_of(digit: usize) -> (c: char)
    requires
        digit < 10,
    ensures
        c == digit_char(digit as nat),
{
    if digit == 0 {
        '0'
    } else if digit == 1 {
        '1'
    } else if digit == 2 {
        '2'
    } else if digit == 3 {
        '3'
    } else if digit == 4 {
        '4'
    } else if digit == 5 {
        '5'
    } else if digit == 6 {
        '6'
    } else if digit == 7 {
        '7'
    } else if digit == 8 {
        '8'
    } else {
        '9'
    }
}

/// Writes a number in decimal digits.
pub(crate) fn decimal(n: usize) -> (text: String)
    ensures
        text@ == decimal_text(n as nat),
    decreases n,
{
    if n < 10 {
        let mut text = String::new();
        text.push(digit_char_of(n));
        assert(text@ =~= seq![digit_char(n as nat)]);
        text
    } else {
        let mut text = decimal(n / 10);
        text.push(digit_char_of(n % 10));
        text
    }
}

} // verus!
