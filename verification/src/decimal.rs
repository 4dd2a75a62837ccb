//! Zero-padded decimal text, the notation of index entries and of file names.

use vstd::prelude::*;

verus! {

/// Whether `b` is the ASCII code of a decimal digit.
pub open spec fn is_digit(b: u8) -> bool {
    48 <= b <= 57
}

/// The ASCII code of the digit `d`.
pub open spec fn digit_byte(d: nat) -> u8
    recommends
        d < 10,
{
    (48 + d) as u8
}

/// The decimal notation of `n`, most significant digit first, filled on the
/// left with zeros to `width` digits. A number that has more digits than
/// `width` keeps them all.
pub open spec fn padded(n: nat, width: nat) -> Seq<u8>
    decreases n, width,
{
    if n < 10 && width <= 1 {
        seq![digit_byte(n)]
    } else {
        padded(n / 10, if width == 0 { 0 } else { (width - 1) as nat }).push(digit_byte(n % 10))
    }
}

/// How many decimal digits `n` has.
pub open spec fn digits(n: nat) -> nat
    decreases n,
{
    if n < 10 {
        1
    } else {
        1 + digits(n / 10)
    }
}

/// Whether every byte of `s` is a decimal digit.
pub open spec fn all_digits(s: Seq<u8>) -> bool {
    forall|i: int| 0 <= i < s.len() ==> is_digit(#[trigger] s[i])
}

/// The number that the digits of `s` denote, most significant digit first.
pub open spec fn value(s: Seq<u8>) -> nat
    decreases s.len(),
{
    if s.len() == 0 {
        0
    } else {
        value(s.drop_last()) * 10 + (s.last() - 48) as nat
    }
}

/// What a field of decimal text reads as: the number its digits denote, where
/// the field is not empty, holds digits only and the number fits in `usize`.
pub open spec fn field_value(s: Seq<u8>) -> Option<usize> {
    if s.len() > 0 && all_digits(s) && value(s) <= usize::MAX {
        Some(value(s) as usize)
    } else {
        None
    }
}

/// The notation of `n` has `width` digits, or those of `n` where they are more.
pub proof fn lemma_padded_len(n: nat, width: nat)
    ensures
        padded(n, width).len() == if digits(n) <= width { width } else { digits(n) },
    decreases n, width,
{
    if n < 10 && width <= 1 {
    } else {
        lemma_padded_len(n / 10, if width == 0 { 0 } else { (width - 1) as nat });
    }
}

/// The notation of `n` holds digits only.
pub proof fn lemma_padded_digits(n: nat, width: nat)
    ensures
        all_digits(padded(n, width)),
    decreases n, width,
{
    if n < 10 && width <= 1 {
    } else {
        lemma_padded_digits(n / 10, if width == 0 { 0 } else { (width - 1) as nat });
    }
}

/// Reading the notation of `n` gives `n` back, whatever the width.
pub proof fn lemma_value_of_padded(n: nat, width: nat)
    ensures
        value(padded(n, width)) == n,
    decreases n, width,
{
    if n < 10 && width <= 1 {
        assert(padded(n, width).drop_last() =~= Seq::<u8>::empty());
        reveal_with_fuel(value, 2);
    } else {
        let rest = padded(n / 10, if width == 0 { 0 } else { (width - 1) as nat });
        lemma_value_of_padded(n / 10, if width == 0 { 0 } else { (width - 1) as nat });
        assert(padded(n, width).drop_last() =~= rest);
    }
}

/// A number below ten thousand million has at most ten digits.
pub proof fn lemma_digits_ten(n: nat)
    requires
        n <= 9_999_999_999,
    ensures
        digits(n) <= 10,
{
    reveal_with_fuel(digits, 11);
}

/// The text that the ASCII codes `bytes` spell.
pub open spec fn ascii_text(bytes: Seq<u8>) -> Seq<char> {
    Seq::new(bytes.len(), |i: int| bytes[i] as char)
}

/// `String::push`: the string grows by the one character, at its end.
#[verifier::external_body]
pub(crate) fn push_char(text: &mut String, c: char)
    ensures
        final(text)@ == old(text)@.push(c),
{
    text.push(c)
}

/// Appends to `text` the characters that the ASCII codes `bytes` spell.
pub fn push_ascii(text: &mut String, bytes: &[u8])
    ensures
        final(text)@ == old(text)@ + ascii_text(bytes@),
{
    let mut i: usize = 0;
    while i < bytes.len()
        invariant
            i <= bytes.len(),
            text@ == old(text)@ + ascii_text(bytes@.take(i as int)),
        decreases bytes.len() - i,
    {
        push_char(text, bytes[i] as char);
        assert(ascii_text(bytes@.take(i + 1)) =~= ascii_text(bytes@.take(i as int)).push(
            bytes@[i as int] as char,
        ));
        assert(text@ =~= old(text)@ + ascii_text(bytes@.take(i + 1)));
        i += 1;
    }
    assert(bytes@.take(i as int) =~= bytes@);
}

/// The notation of `n`, filled to `width` digits, as a string.
pub fn padded_string(n: usize, width: usize) -> (text: String)
    ensures
        text@ == ascii_text(padded(n as nat, width as nat)),
{
    let mut digits: Vec<u8> = Vec::new();
    push_padded(&mut digits, n, width);
    let mut text = String::new();
    push_ascii(&mut text, digits.as_slice());
    assert(text@ =~= ascii_text(padded(n as nat, width as nat)));
    text
}

/// Reads a field of decimal text: the number that its digits denote. A field
/// that is empty, holds anything but digits, or denotes a number beyond
/// `usize` reads as nothing.
pub fn parse_field(field: &[u8]) -> (number: Option<usize>)
    ensures
        number == field_value(field@),
{
    if field.len() == 0 {
        return None;
    }
    let mut acc: usize = 0;
    let mut overflow = false;
    let mut i: usize = 0;
    while i < field.len()
        invariant
            i <= field.len(),
            all_digits(field@.take(i as int)),
            !overflow ==> acc == value(field@.take(i as int)),
            overflow ==> value(field@.take(i as int)) > usize::MAX,
        decreases field.len() - i,
    {
        let b = field[i];
        if b < 48 || b > 57 {
            assert(!is_digit(field@[i as int]));
            return None;
        }
        proof {
            assert(field@.take(i + 1).drop_last() =~= field@.take(i as int));
            assert(all_digits(field@.take(i + 1))) by {
                assert forall|j: int| 0 <= j < i + 1 implies is_digit(
                    #[trigger] field@.take(i + 1)[j],
                ) by {
                    if j < i {
                        assert(field@.take(i as int)[j] == field@.take(i + 1)[j]);
                    }
                }
            }
        }
        if !overflow {
            let next = match acc.checked_mul(10) {
                Some(tens) => tens.checked_add((b - 48) as usize),
                None => None,
            };
            match next {
                Some(n) => {
                    acc = n;
                },
                None => {
                    overflow = true;
                },
            }
        }
        i += 1;
    }
    assert(field@.take(i as int) =~= field@);
    if overflow {
        None
    } else {
        Some(acc)
    }
}

/// The sequence `s` from its last element to its first.
pub open spec fn backwards(s: Seq<u8>) -> Seq<u8> {
    Seq::new(s.len(), |j: int| s[s.len() - 1 - j])
}

/// Appends the notation of `n`, filled to `width` digits, to `out`.
pub fn push_padded(out: &mut Vec<u8>, n: usize, width: usize)
    ensures
        final(out)@ == old(out)@ + padded(n as nat, width as nat),
{
    // The digits come out last first: they are gathered, then turned round.
    let mut low: Vec<u8> = Vec::new();
    let mut rest: usize = n;
    let mut left: usize = width;
    while !(rest < 10 && left <= 1)
        invariant
            padded(n as nat, width as nat) == padded(rest as nat, left as nat) + backwards(low@),
        decreases rest, left,
    {
        let ghost before = low@;
        low.push(48 + (rest % 10) as u8);
        assert(backwards(low@) =~= seq![digit_byte((rest % 10) as nat)] + backwards(before));
        assert(padded(rest as nat, left as nat) + backwards(before) =~= padded(
            (rest / 10) as nat,
            if left == 0 {
                0
            } else {
                (left - 1) as nat
            },
        ) + backwards(low@));
        rest = rest / 10;
        left = if left == 0 {
            0
        } else {
            left - 1
        };
    }
    out.push(48 + rest as u8);
    let ghost head = out@;
    let mut k: usize = low.len();
    while k > 0
        invariant
            k <= low.len(),
            out@ == head + backwards(low@).take(low.len() - k),
        decreases k,
    {
        k -= 1;
        out.push(low[k]);
        assert(backwards(low@).take(low.len() - k) =~= backwards(low@).take(low.len() - k - 1).push(
            low@[k as int],
        ));
    }
    assert(backwards(low@).take(low.len() as int) =~= backwards(low@));
    assert(out@ =~= old(out)@ + padded(n as nat, width as nat));
}

} // verus!
