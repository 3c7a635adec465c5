//! The fixed-capacity string that holds a hyphenated ISBN, and what is written into it.

use arrayvec::ArrayString;
use crate::numerals;
use vstd::prelude::*;
use vstd::utf8;

verus! {

/// The string type of the `arrayvec` crate, opaque to the verifier.
#[verifier::external_type_specification]
#[verifier::external_body]
pub struct ExArrayString<const CAP: usize>(arrayvec::ArrayString<CAP>);

/// The characters that the string holds.
pub uninterp spec fn string_chars(text: ArrayString<17>) -> Seq<char>;

/// `ArrayString::new`: the new string holds no character.
#[verifier::external_body]
pub(crate) fn new_string() -> (text: ArrayString<17>)
    ensures
        string_chars(text) == Seq::<char>::empty(),
{
    ArrayString::new()
}

/// `ArrayString::push`: the character comes last, after those that were there. The call panics
/// where the UTF-8 form of the result is longer than the capacity.
#[verifier::external_body]
pub(crate) fn push_char(text: &mut ArrayString<17>, c: char)
    requires
        utf8::encode_utf8(string_chars(*old(text)).push(c)).len() <= 17,
    ensures
        string_chars(*final(text)) == string_chars(*old(text)).push(c),
{
    text.push(c)
}

/// The character of a decimal digit, and `X` for the check digit ten.
pub open spec fn digit_char(digit: u8) -> char {
    if digit == 10 {
        'X'
    } else {
        (48 + digit) as char
    }
}

/// The characters of the digits, one after the other.
pub open spec fn digit_chars(digits: Seq<u8>) -> Seq<char> {
    Seq::new(digits.len(), |i: int| digit_char(digits[i]))
}

/// The digits with a hyphen before the one at `first` and the one at `second`, where there are
/// such digits.
pub open spec fn marked(digits: Seq<u8>, first: int, second: int) -> Seq<char>
    decreases digits.len(),
{
    if digits.len() == 0 {
        seq![]
    } else {
        let at = digits.len() - 1;
        let before = marked(digits.drop_last(), first, second);
        let hyphened = if at == first || at == second {
            before.push('-')
        } else {
            before
        };
        hyphened.push(digit_char(digits.last()))
    }
}

/// What the hyphenated form of an ISBN reads: the GS1 prefix and a hyphen where there is a
/// prefix, the body with its two hyphens, and the check digit behind a hyphen.
pub open spec fn hyphenated_form(
    head: Seq<u8>,
    body: Seq<u8>,
    check: u8,
    first: int,
    second: int,
) -> Seq<char> {
    let lead = if head.len() == 0 {
        seq![]
    } else {
        digit_chars(head).push('-')
    };
    lead + marked(body, first, second) + seq!['-', digit_char(check)]
}

proof fn lemma_marked_len(digits: Seq<u8>, first: int, second: int)
    ensures
        marked(digits, first, second).len() == digits.len() + (if 0 <= first < digits.len() {
            1int
        } else {
            0
        }) + (if 0 <= second < digits.len() && second != first {
            1int
        } else {
            0
        }),
    decreases digits.len(),
{
    if digits.len() > 0 {
        lemma_marked_len(digits.drop_last(), first, second);
    }
}

/// Writes the digit or the `X` of a check digit.
fn char_of(digit: u8) -> (c: char)
    requires
        digit <= 10,
    ensures
        c == digit_char(digit),
{
    if digit == 10 {
        'X'
    } else {
        (48 + digit) as char
    }
}

/// Appends an ASCII character to a string that has room for it.
fn push_ascii(text: &mut ArrayString<17>, c: char)
    requires
        utf8::is_ascii_chars(string_chars(*old(text))),
        string_chars(*old(text)).len() < 17,
        '\0' <= c <= '\u{7f}',
    ensures
        string_chars(*final(text)) == string_chars(*old(text)).push(c),
        utf8::is_ascii_chars(string_chars(*final(text))),
{
    proof {
        let longer = string_chars(*text).push(c);
        assert(utf8::is_ascii_chars(longer));
        utf8::is_ascii_chars_encode_utf8(longer);
    }
    push_char(text, c);
}

/// Writes `digits[..head]`, a hyphen where `head` is not zero, the digits up to the last with a
/// hyphen before the two body digits that `hyphen_at` counts, and the last behind a hyphen.
pub(crate) fn write_hyphenated(digits: &[u8], head: usize, hyphen_at: [usize; 2]) -> (text:
    ArrayString<17>)
    requires
        digits@.len() == head + 10,
        head == 0 || head == 3,
        numerals::decimal_digits(digits@.drop_last()),
        digits@.last() <= 10,
    ensures
        string_chars(text) == hyphenated_form(
            digits@.take(head as int),
            digits@.subrange(head as int, head + 9),
            digits@.last(),
            hyphen_at@[0] as int,
            hyphen_at@[1] as int,
        ),
{
    let ghost first = hyphen_at@[0] as int;
    let ghost second = hyphen_at@[1] as int;
    let ghost body = digits@.subrange(head as int, head + 9);
    let mut text = new_string();
    let mut i: usize = 0;
    while i < head
        invariant
            i <= head,
            head <= 3,
            digits@.len() == head + 10,
            numerals::decimal_digits(digits@.drop_last()),
            string_chars(text) == digit_chars(digits@.take(i as int)),
            utf8::is_ascii_chars(string_chars(text)),
        decreases head - i,
    {
        assert(digits@.drop_last()[i as int] == digits@[i as int]);
        push_ascii(&mut text, char_of(digits[i]));
        i += 1;
        assert(string_chars(text) =~= digit_chars(digits@.take(i as int)));
    }
    if head > 0 {
        push_ascii(&mut text, '-');
    }
    let ghost lead = string_chars(text);
    let mut k: usize = 0;
    assert(string_chars(text) =~= lead + marked(body.take(0), first, second));
    while k < 9
        invariant
            k <= 9,
            head == 0 || head == 3,
            digits@.len() == head + 10,
            numerals::decimal_digits(digits@.drop_last()),
            body == digits@.subrange(head as int, head + 9),
            first == hyphen_at@[0],
            second == hyphen_at@[1],
            lead.len() <= head + 1,
            head == 0 ==> lead.len() == 0,
            string_chars(text) == lead + marked(body.take(k as int), first, second),
            utf8::is_ascii_chars(string_chars(text)),
        decreases 9 - k,
    {
        let ghost done = body.take(k as int);
        let ghost next = body.take(k + 1);
        proof {
            lemma_marked_len(done, first, second);
            assert(next.drop_last() =~= done);
            assert(digits@.drop_last()[head + k] == digits@[head + k]);
        }
        if k == hyphen_at[0] || k == hyphen_at[1] {
            push_ascii(&mut text, '-');
        }
        push_ascii(&mut text, char_of(digits[head + k]));
        k += 1;
        assert(string_chars(text) =~= lead + marked(next, first, second));
    }
    assert(body.take(9) =~= body);
    proof {
        lemma_marked_len(body, first, second);
    }
    push_ascii(&mut text, '-');
    push_ascii(&mut text, char_of(digits[digits.len() - 1]));
    assert(string_chars(text) =~= hyphenated_form(
        digits@.take(head as int),
        body,
        digits@.last(),
        first,
        second,
    ));
    text
}

} // verus!
