//! ISBNs and their parts.

use crate::hyphenated::{self, write_hyphenated};
use crate::numerals::{self, bcd_push, chars_of, to_digit};
use arrayvec::ArrayString;
use vstd::prelude::*;

verus! {

/// Why an ISBN was refused.
#[derive(Debug, Clone, Copy, PartialEq, Eq, Structural)]
pub enum IsbnError {
    /// The text holds too few or too many digits.
    InvalidLength,
    /// The text holds a character that has no place in an ISBN.
    InvalidDigit,
    /// A digit is larger than its place allows.
    DigitTooLarge,
    /// The check digit does not fit the other digits.
    InvalidChecksum,
    /// No registration group, or no registrant range, takes the ISBN in.
    InvalidGroup,
    /// The range that takes the ISBN in is not defined for use.
    UndefinedRange,
}

/// What a range says of an ISBN: the agency's name, and how many digits the next part has.
pub struct Group<'a> {
    /// The name of the agency.
    pub name: &'a str,
    /// The number of digits of the part.
    pub segment_length: usize,
}

/// The digits of an ISBN-10, each weighted by its place from the end.
pub open spec fn weighted_sum10(digits: Seq<u8>) -> int {
    10 * digits[0] + 9 * digits[1] + 8 * digits[2] + 7 * digits[3] + 6 * digits[4] + 5 * digits[5]
        + 4 * digits[6] + 3 * digits[7] + 2 * digits[8] + digits[9]
}

/// The digits of an ISBN-13, weighted one and three in turn.
pub open spec fn weighted_sum13(digits: Seq<u8>) -> int {
    digits[0] + 3 * digits[1] + digits[2] + 3 * digits[3] + digits[4] + 3 * digits[5] + digits[6]
        + 3 * digits[7] + digits[8] + 3 * digits[9] + digits[10] + 3 * digits[11] + digits[12]
}

/// Ten digits, of which the last may be ten.
pub open spec fn digits_fit10(digits: Seq<u8>) -> bool {
    &&& digits.len() == 10
    &&& numerals::decimal_digits(digits.drop_last())
    &&& digits.last() <= 10
}

/// Thirteen digits.
pub open spec fn digits_fit13(digits: Seq<u8>) -> bool {
    &&& digits.len() == 13
    &&& numerals::decimal_digits(digits)
}

/// The digits of an ISBN-10.
pub open spec fn is_isbn10(digits: Seq<u8>) -> bool {
    digits_fit10(digits) && weighted_sum10(digits) % 11 == 0
}

/// The digits of an ISBN-13.
pub open spec fn is_isbn13(digits: Seq<u8>) -> bool {
    digits_fit13(digits) && weighted_sum13(digits) % 10 == 0
}

/// The seven digits of the body from `base` on, zeros where the body has ended, as a number.
pub open spec fn segment_number(body: Seq<u8>, base: int) -> nat {
    numerals::decimal(segment_digits(body, base))
}

/// The seven digits of the body from `base` on, zeros where the body has ended.
pub open spec fn segment_digits(body: Seq<u8>, base: int) -> Seq<u8> {
    Seq::new(
        7,
        |i: int|
            if base + i < body.len() {
                body[base + i]
            } else {
                0
            },
    )
}

/// An ISBN whose parts the ranges tell apart.
pub trait IsbnObject {
    /// The three digits of the GS1 prefix.
    spec fn gs1_prefix(&self) -> Seq<u8>;

    /// The nine digits between the GS1 prefix and the check digit.
    spec fn body(&self) -> Seq<u8>;

    /// The written form, with a hyphen before the body digits at `first` and at `second`.
    spec fn hyphenated(&self, first: int, second: int) -> Seq<char>;

    /// Writes the ISBN with a hyphen before each of the two body digits.
    fn hyphenate_with(&self, hyphen_at: [usize; 2]) -> (text: ArrayString<17>)
        ensures
            hyphenated::string_chars(text) == self.hyphenated(
                hyphen_at@[0] as int,
                hyphen_at@[1] as int,
            ),
    ;

    /// The GS1 prefix as a binary-coded decimal.
    fn prefix_element(&self) -> (prefix: u16)
        ensures
            prefix == numerals::bcd(self.gs1_prefix()),
    ;

    /// The seven digits of the body from `base` on as a number, zeros where the body has ended.
    fn segment(&self, base: usize) -> (number: u32)
        ensures
            number == segment_number(self.body(), base as int),
    ;

    /// The first digits of the body as a binary-coded decimal.
    fn group_prefix(&self, length: usize) -> (prefix: u32)
        requires
            length <= 9,
        ensures
            prefix == numerals::bcd32(self.body().take(length as int)),
    ;
}

/// Seven digits from `base` on, out of the nine that start at `head`.
fn segment_of(digits: &[u8], head: usize, base: usize) -> (number: u32)
    requires
        digits@.len() == head + 10,
        head <= 3,
        numerals::decimal_digits(digits@.drop_last()),
    ensures
        number == segment_number(digits@.subrange(head as int, head + 9), base as int),
{
    let ghost body = digits@.subrange(head as int, head + 9);
    let ghost all = segment_digits(body, base as int);
    let mut number: u32 = 0;
    let mut i: usize = 0;
    while i < 7
        invariant
            i <= 7,
            digits@.len() == head + 10,
            head <= 3,
            numerals::decimal_digits(digits@.drop_last()),
            body == digits@.subrange(head as int, head + 9),
            all == segment_digits(body, base as int),
            number == numerals::decimal(all.take(i as int)),
        decreases 7 - i,
    {
        proof {
            numerals::lemma_take_one_more(all, i as int);
            assert forall|k: int| 0 <= k < 7 implies #[trigger] all[k] <= 9 by {
                if base + k < 9 {
                    assert(digits@.drop_last()[head + base + k] <= 9);
                }
            }
            numerals::lemma_decimal_bound(all.take(i as int));
            numerals::lemma_decimal_bound(all.take(i + 1));
        }
        let digit: u8 = if base < 9 && i < 9 - base {
            digits[head + base + i]
        } else {
            0
        };
        number = number * 10 + digit as u32;
        i += 1;
    }
    assert(all.take(7) =~= all);
    number
}

/// The first `length` of the nine digits that start at `head`, as a binary-coded decimal.
fn group_prefix_of(digits: &[u8], head: usize, length: usize) -> (prefix: u32)
    requires
        digits@.len() == head + 10,
        head <= 3,
        numerals::decimal_digits(digits@.drop_last()),
        length <= 9,
    ensures
        prefix == numerals::bcd32(digits@.subrange(head as int, head + 9).take(length as int)),
{
    let ghost body = digits@.subrange(head as int, head + 9);
    let mut prefix: u32 = 0;
    let mut i: usize = 0;
    while i < length
        invariant
            i <= length <= 9,
            digits@.len() == head + 10,
            head <= 3,
            numerals::decimal_digits(digits@.drop_last()),
            body == digits@.subrange(head as int, head + 9),
            prefix == numerals::bcd32(body.take(i as int)),
        decreases length - i,
    {
        assert(digits@.drop_last()[head + i] <= 9);
        assert(body.take(i as int).push(body[i as int]) =~= body.take(i + 1));
        prefix = bcd_push(prefix, digits[head + i], Ghost(body.take(i as int)));
        i += 1;
    }
    prefix
}

/// A 10-digit ISBN.
#[derive(Debug, Clone, Copy, PartialEq, Eq, Hash)]
pub struct Isbn10 {
    digits: [u8; 10],
}

impl View for Isbn10 {
    type V = Seq<u8>;

    closed spec fn view(&self) -> Seq<u8> {
        self.digits@
    }
}

impl Isbn10 {
    #[verifier::type_invariant]
    spec fn well_formed(self) -> bool {
        is_isbn10(self.digits@)
    }

    /// Makes an ISBN-10 of its digits; ten as the last stands for `X`.
    ///
    /// # Errors
    /// If a digit is too large for its place, or the check digit does not fit.
    pub fn new(digits: [u8; 10]) -> (isbn: Result<Isbn10, IsbnError>)
        ensures
            match isbn {
                Ok(isbn) => is_isbn10(digits@) && isbn@ == digits@,
                Err(IsbnError::DigitTooLarge) => !digits_fit10(digits@),
                Err(IsbnError::InvalidChecksum) => digits_fit10(digits@) && !is_isbn10(digits@),
                Err(_) => false,
            },
            isbn matches Ok(isbn) ==> isbn@ == digits@,
            isbn is Ok <==> digits@[9] <= 10 && (forall|i: int|
                0 <= i < 9 ==> #[trigger] digits@[i] <= 9) && (10 * digits@[0] + 9 * digits@[1] + 8
                * digits@[2] + 7 * digits@[3] + 6 * digits@[4] + 5 * digits@[5] + 4 * digits@[6] + 3
                * digits@[7] + 2 * digits@[8] + digits@[9]) % 11 == 0,
            isbn == Err::<Isbn10, IsbnError>(IsbnError::DigitTooLarge) <==> digits@[9] > 10 || (
            exists|i: int| 0 <= i < 9 && #[trigger] digits@[i] > 9),
    {
        let mut i: usize = 0;
        while i < 9
            invariant
                i <= 9,
                forall|k: int| 0 <= k < i ==> #[trigger] digits@[k] <= 9,
            decreases 9 - i,
        {
            if digits[i] > 9 {
                assert(digits@.drop_last()[i as int] > 9);
                return Err(IsbnError::DigitTooLarge);
            }
            i += 1;
        }
        if digits[9] > 10 {
            return Err(IsbnError::DigitTooLarge);
        }
        let sum: u32 = 10 * digits[0] as u32 + 9 * digits[1] as u32 + 8 * digits[2] as u32 + 7
            * digits[3] as u32 + 6 * digits[4] as u32 + 5 * digits[5] as u32 + 4 * digits[6] as u32
            + 3 * digits[7] as u32 + 2 * digits[8] as u32 + digits[9] as u32;
        if sum % 11 == 0 {
            Ok(Isbn10 { digits })
        } else {
            Err(IsbnError::InvalidChecksum)
        }
    }
}

impl IsbnObject for Isbn10 {
    open spec fn gs1_prefix(&self) -> Seq<u8> {
        seq![9, 7, 8]
    }

    open spec fn body(&self) -> Seq<u8> {
        self@.take(9)
    }

    open spec fn hyphenated(&self, first: int, second: int) -> Seq<char> {
        hyphenated::hyphenated_form(seq![], self.body(), self@[9], first, second)
    }

    fn hyphenate_with(&self, hyphen_at: [usize; 2]) -> (text: ArrayString<17>) {
        proof {
            use_type_invariant(self);
            assert(self@.take(0) =~= seq![]);
            assert(self@.subrange(0, 9) =~= self@.take(9));
        }
        write_hyphenated(self.digits.as_slice(), 0, hyphen_at)
    }

    fn prefix_element(&self) -> (prefix: u16) {
        proof {
            reveal_with_fuel(numerals::bcd, 4);
        }
        0x978
    }

    fn segment(&self, base: usize) -> (number: u32) {
        proof {
            use_type_invariant(self);
            assert(self@.subrange(0, 9) =~= self@.take(9));
        }
        segment_of(self.digits.as_slice(), 0, base)
    }

    fn group_prefix(&self, length: usize) -> (prefix: u32) {
        proof {
            use_type_invariant(self);
            assert(self@.subrange(0, 9) =~= self@.take(9));
        }
        group_prefix_of(self.digits.as_slice(), 0, length)
    }
}

/// A 13-digit ISBN.
#[derive(Debug, Clone, Copy, PartialEq, Eq, Hash)]
pub struct Isbn13 {
    digits: [u8; 13],
}

impl View for Isbn13 {
    type V = Seq<u8>;

    closed spec fn view(&self) -> Seq<u8> {
        self.digits@
    }
}

impl Isbn13 {
    #[verifier::type_invariant]
    spec fn well_formed(self) -> bool {
        is_isbn13(self.digits@)
    }

    /// Makes an ISBN-13 of its digits.
    ///
    /// # Errors
    /// If a digit is larger than nine, or the check digit does not fit.
    pub fn new(digits: [u8; 13]) -> (isbn: Result<Isbn13, IsbnError>)
        ensures
            match isbn {
                Ok(isbn) => is_isbn13(digits@) && isbn@ == digits@,
                Err(IsbnError::DigitTooLarge) => !digits_fit13(digits@),
                Err(IsbnError::InvalidChecksum) => digits_fit13(digits@) && !is_isbn13(digits@),
                Err(_) => false,
            },
            isbn matches Ok(isbn) ==> isbn@ == digits@,
            isbn is Ok <==> (forall|i: int| 0 <= i < 13 ==> #[trigger] digits@[i] <= 9) && (
            digits@[0] + 3 * digits@[1] + digits@[2] + 3 * digits@[3] + digits@[4] + 3 * digits@[5]
                + digits@[6] + 3 * digits@[7] + digits@[8] + 3 * digits@[9] + digits@[10] + 3
                * digits@[11] + digits@[12]) % 10 == 0,
            isbn == Err::<Isbn13, IsbnError>(IsbnError::DigitTooLarge) <==> exists|i: int|
                0 <= i < 13 && #[trigger] digits@[i] > 9,
    {
        let mut i: usize = 0;
        while i < 13
            invariant
                i <= 13,
                forall|k: int| 0 <= k < i ==> #[trigger] digits@[k] <= 9,
            decreases 13 - i,
        {
            if digits[i] > 9 {
                return Err(IsbnError::DigitTooLarge);
            }
            i += 1;
        }
        let sum: u32 = digits[0] as u32 + 3 * digits[1] as u32 + digits[2] as u32 + 3
            * digits[3] as u32 + digits[4] as u32 + 3 * digits[5] as u32 + digits[6] as u32 + 3
            * digits[7] as u32 + digits[8] as u32 + 3 * digits[9] as u32 + digits[10] as u32 + 3
            * digits[11] as u32 + digits[12] as u32;
        if sum % 10 == 0 {
            Ok(Isbn13 { digits })
        } else {
            Err(IsbnError::InvalidChecksum)
        }
    }
}

impl IsbnObject for Isbn13 {
    open spec fn gs1_prefix(&self) -> Seq<u8> {
        self@.take(3)
    }

    open spec fn body(&self) -> Seq<u8> {
        self@.subrange(3, 12)
    }

    open spec fn hyphenated(&self, first: int, second: int) -> Seq<char> {
        hyphenated::hyphenated_form(self.gs1_prefix(), self.body(), self@[12], first, second)
    }

    fn hyphenate_with(&self, hyphen_at: [usize; 2]) -> (text: ArrayString<17>) {
        proof {
            use_type_invariant(self);
        }
        write_hyphenated(self.digits.as_slice(), 3, hyphen_at)
    }

    fn prefix_element(&self) -> (prefix: u16) {
        proof {
            use_type_invariant(self);
            reveal_with_fuel(numerals::bcd, 4);
        }
        self.digits[0] as u16 * 256 + self.digits[1] as u16 * 16 + self.digits[2] as u16
    }

    fn segment(&self, base: usize) -> (number: u32) {
        proof {
            use_type_invariant(self);
        }
        segment_of(self.digits.as_slice(), 3, base)
    }

    fn group_prefix(&self, length: usize) -> (prefix: u32) {
        proof {
            use_type_invariant(self);
        }
        group_prefix_of(self.digits.as_slice(), 3, length)
    }
}

/// An ISBN of either length.
#[derive(Debug, Clone, Copy, PartialEq, Eq, Hash)]
pub enum Isbn {
    /// A 10-digit ISBN.
    _10(Isbn10),
    /// A 13-digit ISBN.
    _13(Isbn13),
}

/// The digits in `text` behind those that have been read. Hyphens are passed over; an `X` counts
/// as ten, in the tenth place and as the last digit only.
pub open spec fn digits_in(text: Seq<char>, read: Seq<u8>) -> Result<Seq<u8>, IsbnError>
    decreases text.len(),
{
    if text.len() == 0 {
        Ok(read)
    } else if text[0] == '-' {
        digits_in(text.skip(1), read)
    } else if text[0] == 'X' && read.len() == 9 {
        digits_in(text.skip(1), read.push(10))
    } else if !numerals::is_digit(text[0]) || (read.len() > 9 && read[9] == 10) {
        Err(IsbnError::InvalidDigit)
    } else if read.len() >= 13 {
        Err(IsbnError::InvalidLength)
    } else {
        digits_in(text.skip(1), read.push((text[0] as u32 - 48) as u8))
    }
}

/// The digits of the ISBN that a text writes.
pub open spec fn isbn_in(text: Seq<char>) -> Result<Seq<u8>, IsbnError> {
    match digits_in(text, seq![]) {
        Err(e) => Err(e),
        Ok(digits) => if digits.len() != 10 && digits.len() != 13 {
            Err(IsbnError::InvalidLength)
        } else if is_isbn10(digits) || is_isbn13(digits) {
            Ok(digits)
        } else {
            Err(IsbnError::InvalidChecksum)
        },
    }
}

impl Isbn {
    /// The digits, ten for an `X`.
    pub open spec fn digits(&self) -> Seq<u8> {
        match *self {
            Isbn::_10(isbn) => isbn@,
            Isbn::_13(isbn) => isbn@,
        }
    }

    /// Reads an ISBN from a text with or without hyphens.
    ///
    /// # Errors
    /// If the text holds other characters, has not ten or thirteen digits, or the check digit
    /// does not fit.
    pub fn parse(text: &str) -> (isbn: Result<Isbn, IsbnError>)
        ensures
            isbn_result(isbn) == isbn_in(text@),
            match isbn {
                Ok(Isbn::_10(isbn)) => isbn_in(text@) == Ok::<Seq<u8>, IsbnError>(isbn@),
                Ok(Isbn::_13(isbn)) => isbn_in(text@) == Ok::<Seq<u8>, IsbnError>(isbn@),
                Err(e) => isbn_in(text@) == Err::<Seq<u8>, IsbnError>(e),
            },
            isbn matches Ok(Isbn::_10(isbn)) ==> isbn@.len() == 10,
            isbn matches Ok(Isbn::_13(isbn)) ==> isbn@.len() == 13,
    {
        let chars: Vec<char> = chars_of(text);
        let mut digits: Vec<u8> = Vec::new();
        let mut i: usize = 0;
        assert(text@.skip(0) =~= text@);
        while i < chars.len()
            invariant
                i <= chars.len(),
                chars@ == text@,
                digits@.len() <= 13,
                forall|k: int|
                    0 <= k < digits@.len() ==> #[trigger] digits@[k] <= 9 || (k == 9 && digits@[k]
                        == 10 && digits@.len() == 10),
                digits_in(text@.skip(i as int), digits@) == digits_in(text@, seq![]),
            decreases chars.len() - i,
        {
            assert(text@.skip(i as int).skip(1) =~= text@.skip(i + 1));
            let c: char = chars[i];
            if c == '-' {
            } else if c == 'X' && digits.len() == 9 {
                digits.push(10);
            } else {
                match to_digit(c) {
                    None => {
                        return Err(IsbnError::InvalidDigit);
                    },
                    Some(digit) => {
                        if digits.len() > 9 && digits[9] == 10 {
                            return Err(IsbnError::InvalidDigit);
                        }
                        if digits.len() >= 13 {
                            return Err(IsbnError::InvalidLength);
                        }
                        digits.push(digit);
                    },
                }
            }
            i += 1;
        }
        if digits.len() == 10 {
            let d: [u8; 10] = [
                digits[0],
                digits[1],
                digits[2],
                digits[3],
                digits[4],
                digits[5],
                digits[6],
                digits[7],
                digits[8],
                digits[9],
            ];
            assert(d@ =~= digits@);
            match Isbn10::new(d) {
                Ok(isbn) => Ok(Isbn::_10(isbn)),
                Err(e) => Err(e),
            }
        } else if digits.len() == 13 {
            let d: [u8; 13] = [
                digits[0],
                digits[1],
                digits[2],
                digits[3],
                digits[4],
                digits[5],
                digits[6],
                digits[7],
                digits[8],
                digits[9],
                digits[10],
                digits[11],
                digits[12],
            ];
            assert(d@ =~= digits@);
            match Isbn13::new(d) {
                Ok(isbn) => Ok(Isbn::_13(isbn)),
                Err(e) => Err(e),
            }
        } else {
            Err(IsbnError::InvalidLength)
        }
    }
}

/// The digits of an ISBN, or the refusal to read one.
pub open spec fn isbn_result(isbn: Result<Isbn, IsbnError>) -> Result<Seq<u8>, IsbnError> {
    match isbn {
        Ok(isbn) => Ok(isbn.digits()),
        Err(e) => Err(e),
    }
}

impl std::str::FromStr for Isbn {
    type Err = IsbnError;

    fn from_str(text: &str) -> (isbn: Result<Isbn, IsbnError>)
        ensures
            isbn_result(isbn) == isbn_in(text@),
            match isbn {
                Ok(Isbn::_10(isbn)) => isbn_in(text@) == Ok::<Seq<u8>, IsbnError>(isbn@),
                Ok(Isbn::_13(isbn)) => isbn_in(text@) == Ok::<Seq<u8>, IsbnError>(isbn@),
                Err(e) => isbn_in(text@) == Err::<Seq<u8>, IsbnError>(e),
            },
            isbn matches Ok(Isbn::_10(isbn)) ==> isbn@.len() == 10,
            isbn matches Ok(Isbn::_13(isbn)) ==> isbn@.len() == 13,
    {
        Isbn::parse(text)
    }
}

} // verus!
