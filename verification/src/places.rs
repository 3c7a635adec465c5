//! What numerals say, place by place.

use crate::error::IsbnRangeError;
use crate::isbn;
use crate::message;
use crate::numerals;
use vstd::prelude::*;

verus! {

/// The digit in the place `i` from the end, zero before the first digit.
pub open spec fn place(digits: Seq<u8>, i: int) -> int {
    if 0 <= i < digits.len() {
        digits[digits.len() - 1 - i] as int
    } else {
        0
    }
}

/// The digit that the character in the place `i` from the end stands for, zero before the first
/// character.
pub open spec fn char_place(text: Seq<char>, i: int) -> int {
    if 0 <= i < text.len() {
        text[text.len() - 1 - i] as int - 48
    } else {
        0
    }
}

/// The digits without the last `n`.
spec fn without_last(digits: Seq<u8>, n: int) -> Seq<u8> {
    if n < digits.len() {
        digits.take(digits.len() - n)
    } else {
        seq![]
    }
}

proof fn lemma_one_place(digits: Seq<u8>, n: int)
    requires
        0 <= n,
    ensures
        numerals::decimal(without_last(digits, n)) == numerals::decimal(without_last(digits, n + 1))
            * 10 + place(digits, n),
        numerals::bcd(without_last(digits, n)) == numerals::bcd(without_last(digits, n + 1)) * 16
            + place(digits, n),
{
    if n < digits.len() {
        let longer = without_last(digits, n);
        assert(longer.drop_last() =~= without_last(digits, n + 1));
        assert(longer.last() == place(digits, n));
    }
}

proof fn lemma_zeros(digits: Seq<u8>)
    requires
        forall|i: int| 0 <= i < digits.len() ==> #[trigger] digits[i] == 0,
    ensures
        numerals::decimal(digits) == 0,
    decreases digits.len(),
{
    if digits.len() > 0 {
        let shorter = digits.drop_last();
        assert forall|i: int| 0 <= i < shorter.len() implies #[trigger] shorter[i] == 0 by {
            assert(digits[i] == 0);
        }
        lemma_zeros(shorter);
        assert(digits[digits.len() - 1] == 0);
    }
}

proof fn lemma_not_zero(digits: Seq<u8>, at: int)
    requires
        0 <= at < digits.len(),
        digits[at] > 0,
    ensures
        numerals::decimal(digits) > 0,
    decreases digits.len(),
{
    if at < digits.len() - 1 {
        lemma_not_zero(digits.drop_last(), at);
    }
}

/// The number that digits denote is the sum of the digits, each times the power of ten of its
/// place. A digit before the last ten, unless it is a zero, makes the number longer than ten digits.
pub proof fn law_decimal_by_places(digits: Seq<u8>)
    ensures
        (forall|i: int| 10 <= i < digits.len() ==> #[trigger] place(digits, i) == 0)
            ==> numerals::decimal(digits) == place(digits, 0) + 10 * place(digits, 1) + 100 * place(
            digits,
            2,
        ) + 1_000 * place(digits, 3) + 10_000 * place(digits, 4) + 100_000 * place(digits, 5)
            + 1_000_000 * place(digits, 6) + 10_000_000 * place(digits, 7) + 100_000_000 * place(
            digits,
            8,
        ) + 1_000_000_000 * place(digits, 9),
        (exists|i: int| 10 <= i < digits.len() && #[trigger] place(digits, i) > 0)
            ==> numerals::decimal(digits) >= 10_000_000_000,
{
    lemma_one_place(digits, 0);
    lemma_one_place(digits, 1);
    lemma_one_place(digits, 2);
    lemma_one_place(digits, 3);
    lemma_one_place(digits, 4);
    lemma_one_place(digits, 5);
    lemma_one_place(digits, 6);
    lemma_one_place(digits, 7);
    lemma_one_place(digits, 8);
    lemma_one_place(digits, 9);
    assert(without_last(digits, 0) =~= digits);
    let front = without_last(digits, 10);
    assert(forall|k: int|
        0 <= k < front.len() ==> #[trigger] front[k] == place(digits, digits.len() - 1 - k));
    if forall|i: int| 10 <= i < digits.len() ==> #[trigger] place(digits, i) == 0 {
        assert forall|k: int| 0 <= k < front.len() implies #[trigger] front[k] == 0 by {
            assert(front[k] == place(digits, digits.len() - 1 - k));
        }
        lemma_zeros(front);
    }
    if exists|i: int| 10 <= i < digits.len() && #[trigger] place(digits, i) > 0 {
        let i = choose|i: int| 10 <= i < digits.len() && #[trigger] place(digits, i) > 0;
        let k = digits.len() - 1 - i;
        assert(front[k] == place(digits, digits.len() - 1 - k));
        lemma_not_zero(front, k);
    }
}

/// In a binary-coded decimal of thirty-two bits each of the last eight digits stands, as it is, in
/// the four bits of its place.
pub proof fn law_bcd_by_places(digits: Seq<u8>)
    requires
        forall|i: int| 0 <= i < digits.len() ==> #[trigger] digits[i] <= 9,
    ensures
        numerals::bcd32(digits) == place(digits, 0) + 0x10 * place(digits, 1) + 0x100 * place(
            digits,
            2,
        ) + 0x1000 * place(digits, 3) + 0x1_0000 * place(digits, 4) + 0x10_0000 * place(digits, 5)
            + 0x100_0000 * place(digits, 6) + 0x1000_0000 * place(digits, 7),
        digits.len() <= 8 ==> numerals::bcd(digits) == numerals::bcd32(digits),
{
    lemma_one_place(digits, 0);
    lemma_one_place(digits, 1);
    lemma_one_place(digits, 2);
    lemma_one_place(digits, 3);
    lemma_one_place(digits, 4);
    lemma_one_place(digits, 5);
    lemma_one_place(digits, 6);
    lemma_one_place(digits, 7);
    assert(without_last(digits, 0) =~= digits);
    let front = numerals::bcd(without_last(digits, 8)) as int;
    let low = place(digits, 0) + 0x10 * place(digits, 1) + 0x100 * place(digits, 2) + 0x1000
        * place(digits, 3) + 0x1_0000 * place(digits, 4) + 0x10_0000 * place(digits, 5)
        + 0x100_0000 * place(digits, 6) + 0x1000_0000 * place(digits, 7);
    assert(numerals::bcd(digits) == 0x1_0000_0000 * front + low);
    assert(0 <= low < 0x1_0000_0000);
    assert((0x1_0000_0000 * front + low) % 0x1_0000_0000 == low) by (nonlinear_arith)
        requires
            0 <= low < 0x1_0000_0000,
    ;
}

/// Different digits have different binary-coded decimals: two numerals have the same if and only if
/// their last eight places hold the same digits.
pub proof fn law_bcd_tells_apart(a: Seq<u8>, b: Seq<u8>)
    requires
        forall|i: int| 0 <= i < a.len() ==> #[trigger] a[i] <= 9,
        forall|i: int| 0 <= i < b.len() ==> #[trigger] b[i] <= 9,
    ensures
        numerals::bcd32(a) == numerals::bcd32(b) <==> (forall|i: int|
            0 <= i < 8 ==> #[trigger] place(a, i) == place(b, i)),
        a.len() == b.len() && a.len() <= 8 && numerals::bcd32(a) == numerals::bcd32(b) ==> a == b,
{
    law_bcd_by_places(a);
    law_bcd_by_places(b);
    assert forall|i: int| 0 <= i < 8 && numerals::bcd32(a) == numerals::bcd32(b) implies
        #[trigger] place(a, i) == place(b, i) by {
        lemma_same_places(a, b);
    }
    if a.len() == b.len() && a.len() <= 8 && numerals::bcd32(a) == numerals::bcd32(b) {
        assert forall|k: int| 0 <= k < a.len() implies a[k] == b[k] by {
            assert(place(a, a.len() - 1 - k) == place(b, a.len() - 1 - k));
        }
        assert(a =~= b);
    }
    if forall|i: int| 0 <= i < 8 ==> #[trigger] place(a, i) == place(b, i) {
        assert(place(a, 0) == place(b, 0) && place(a, 1) == place(b, 1) && place(a, 2) == place(
            b,
            2,
        ) && place(a, 3) == place(b, 3) && place(a, 4) == place(b, 4) && place(a, 5) == place(b, 5)
            && place(a, 6) == place(b, 6) && place(a, 7) == place(b, 7));
    }
}

proof fn lemma_same_places(a: Seq<u8>, b: Seq<u8>)
    requires
        forall|i: int| 0 <= i < a.len() ==> #[trigger] a[i] <= 9,
        forall|i: int| 0 <= i < b.len() ==> #[trigger] b[i] <= 9,
        numerals::bcd32(a) == numerals::bcd32(b),
    ensures
        forall|i: int| 0 <= i < 8 ==> #[trigger] place(a, i) == place(b, i),
{
    law_bcd_by_places(a);
    law_bcd_by_places(b);
    assert(forall|i: int| 0 <= #[trigger] place(a, i) <= 9);
    assert(forall|i: int| 0 <= #[trigger] place(b, i) <= 9);
    assert(place(a, 7) == place(b, 7));
    assert(place(a, 6) == place(b, 6));
    assert(place(a, 5) == place(b, 5));
    assert(place(a, 4) == place(b, 4));
    assert(place(a, 3) == place(b, 3));
    assert(place(a, 2) == place(b, 2));
    assert(place(a, 1) == place(b, 1));
    assert(place(a, 0) == place(b, 0));
}

/// The digit of the body at `k`, zero behind its end.
pub open spec fn body_digit(body: Seq<u8>, k: int) -> int {
    if 0 <= k < body.len() {
        body[k] as int
    } else {
        0
    }
}

/// The number written by the seven digits from `base` on, zeros where the body has ended.
pub open spec fn seven_from(body: Seq<u8>, base: int) -> int {
    1_000_000 * body_digit(body, base) + 100_000 * body_digit(body, base + 1) + 10_000 * body_digit(
        body,
        base + 2,
    ) + 1_000 * body_digit(body, base + 3) + 100 * body_digit(body, base + 4) + 10 * body_digit(
        body,
        base + 5,
    ) + body_digit(body, base + 6)
}

/// The number of the segment at `base` is the sum of the seven body digits from `base` on, each
/// times the power of ten of its place, with zeros where the body has ended. So its first digit is
/// that of the body at `base`, and one place further on the first digit goes and the digit seven
/// places on comes.
pub proof fn law_segment_by_places(body: Seq<u8>, base: int)
    requires
        0 <= base,
        forall|i: int| 0 <= i < body.len() ==> #[trigger] body[i] <= 9,
    ensures
        isbn::segment_number(body, base) == 1_000_000 * body_digit(body, base) + 100_000
            * body_digit(body, base + 1) + 10_000 * body_digit(body, base + 2) + 1_000 * body_digit(
            body,
            base + 3,
        ) + 100 * body_digit(body, base + 4) + 10 * body_digit(body, base + 5) + body_digit(
            body,
            base + 6,
        ),
        isbn::segment_number(body, base) as int / 1_000_000 == body_digit(body, base),
        isbn::segment_number(body, base + 1) as int == (isbn::segment_number(body, base) as int
            % 1_000_000) * 10 + body_digit(body, base + 7),
{
    lemma_segment_sum(body, base);
    lemma_segment_sum(body, base + 1);
    assert(forall|k: int| 0 <= #[trigger] body_digit(body, k) <= 9);
    let first = body_digit(body, base);
    let others = 100_000 * body_digit(body, base + 1) + 10_000 * body_digit(body, base + 2) + 1_000
        * body_digit(body, base + 3) + 100 * body_digit(body, base + 4) + 10 * body_digit(
        body,
        base + 5,
    ) + body_digit(body, base + 6);
    assert(0 <= others < 1_000_000);
    assert(isbn::segment_number(body, base) == 1_000_000 * first + others);
}

proof fn lemma_segment_sum(body: Seq<u8>, base: int)
    requires
        0 <= base,
    ensures
        isbn::segment_number(body, base) == seven_from(body, base),
{
    let digits = isbn::segment_digits(body, base);
    law_decimal_by_places(digits);
    assert(place(digits, 6) == body_digit(body, base));
    assert(place(digits, 5) == body_digit(body, base + 1));
    assert(place(digits, 4) == body_digit(body, base + 2));
    assert(place(digits, 3) == body_digit(body, base + 3));
    assert(place(digits, 2) == body_digit(body, base + 4));
    assert(place(digits, 1) == body_digit(body, base + 5));
    assert(place(digits, 0) == body_digit(body, base + 6));
}

/// Seven digits in a row write the number of their segment, the first with the weight of a million;
/// and zeros behind the body change nothing, so that a body that ends within the seven digits counts
/// as if it went on with zeros.
pub proof fn law_segment_of_seven_digits(body: Seq<u8>, base: int)
    requires
        0 <= base,
    ensures
        base + 7 <= body.len() ==> isbn::segment_number(body, base) == 1_000_000 * body[base]
            + 100_000 * body[base + 1] + 10_000 * body[base + 2] + 1_000 * body[base + 3] + 100
            * body[base + 4] + 10 * body[base + 5] + body[base + 6],
        isbn::segment_number(body.push(0), base) == isbn::segment_number(body, base),
        body.len() <= base ==> isbn::segment_number(body, base) == 0,
{
    lemma_segment_sum(body, base);
    assert(isbn::segment_digits(body.push(0), base) =~= isbn::segment_digits(body, base));
}

/// One more digit moves those before it up by one place, in base ten for the number that they write
/// and in base sixteen for their binary-coded decimal, of which thirty-two bits are kept.
pub proof fn law_one_more_digit(digits: Seq<u8>, digit: u8)
    ensures
        numerals::decimal(digits.push(digit)) == numerals::decimal(digits) * 10 + digit,
        numerals::bcd(digits.push(digit)) == numerals::bcd(digits) * 16 + digit,
        numerals::bcd32(digits.push(digit)) as int == (numerals::bcd32(digits) as int * 16 + digit)
            % 0x1_0000_0000,
        numerals::decimal(seq![]) == 0,
        numerals::bcd(seq![]) == 0,
        numerals::bcd32(seq![]) == 0,
{
    assert(digits.push(digit).drop_last() =~= digits);
    let before = numerals::bcd(digits) as int;
    let low = numerals::bcd32(digits) as int;
    assert((low * 16 + digit) % 0x1_0000_0000 == (before * 16 + digit) % 0x1_0000_0000)
        by (nonlinear_arith)
        requires
            low == before % 0x1_0000_0000,
    ;
}

/// The character is one of `0` to `9`.
pub open spec fn figure(c: char) -> bool {
    48 <= c as int <= 57
}

/// The text without a `+` before it.
pub open spec fn unsigned(text: Seq<char>) -> Seq<char> {
    if text.len() > 0 && text[0] == '+' {
        text.skip(1)
    } else {
        text
    }
}

/// One or more figures, whose sum by places is the number.
pub open spec fn figures_write(figures: Seq<char>, number: int) -> bool {
    &&& figures.len() > 0
    &&& forall|k: int| 0 <= k < figures.len() ==> figure(#[trigger] figures[k])
    &&& forall|i: int| 10 <= i < figures.len() ==> #[trigger] char_place(figures, i) == 0
    &&& number == char_place(figures, 0) + 10 * char_place(figures, 1) + 100 * char_place(
        figures,
        2,
    ) + 1_000 * char_place(figures, 3) + 10_000 * char_place(figures, 4) + 100_000 * char_place(
        figures,
        5,
    ) + 1_000_000 * char_place(figures, 6) + 10_000_000 * char_place(figures, 7) + 100_000_000
        * char_place(figures, 8) + 1_000_000_000 * char_place(figures, 9)
}

/// The text writes the number: figures whose sum by places it is, behind a `+` or not.
pub open spec fn writes(text: Seq<char>, number: int) -> bool {
    figures_write(unsigned(text), number)
}

proof fn lemma_char_places(text: Seq<char>)
    requires
        forall|k: int| 0 <= k < text.len() ==> figure(#[trigger] text[k]),
    ensures
        forall|i: int| #[trigger]
            char_place(text, i) == place(numerals::digits_of(text), i) && 0 <= char_place(text, i)
                <= 9,
        forall|i: int|
            0 <= i < text.len() ==> #[trigger] numerals::digits_of(text)[i] <= 9,
{
    let digits = numerals::digits_of(text);
    assert forall|i: int| 0 <= i < text.len() implies #[trigger] digits[i] == text[i] as int - 48
        && digits[i] <= 9 by {
        assert(figure(text[i]));
    }
    assert forall|i: int| #[trigger] char_place(text, i) == place(digits, i) && 0 <= char_place(
        text,
        i,
    ) <= 9 by {
        if 0 <= i < text.len() {
            assert(digits[text.len() - 1 - i] == text[text.len() - 1 - i] as int - 48);
        }
    }
}

/// A text is read as a number of thirty-two bits if and only if it writes that number.
pub proof fn law_number_is_written(text: Seq<char>, number: u32)
    ensures
        numerals::number(text) == Some(number) <==> writes(text, number as int),
{
    let figures = unsigned(text);
    let digits = numerals::digits_of(figures);
    if numerals::all_digits(figures) {
        assert forall|k: int| 0 <= k < figures.len() implies figure(#[trigger] figures[k]) by {
            assert(numerals::is_digit(figures[k]));
        }
        lemma_char_places(figures);
        law_decimal_by_places(digits);
        assert(forall|i: int| 10 <= i < digits.len() && #[trigger] place(digits, i) == 0
            ==> char_place(figures, i) == 0);
        if numerals::decimal(digits) <= u32::MAX {
            assert forall|i: int| 10 <= i < digits.len() implies #[trigger] place(digits, i)
                == 0 by {
                assert(char_place(figures, i) == place(digits, i));
            }
            assert forall|i: int| 10 <= i < figures.len() implies #[trigger] char_place(figures, i)
                == 0 by {
                assert(place(digits, i) == 0);
            }
        }
        if writes(text, number as int) {
            assert forall|i: int| 10 <= i < digits.len() implies #[trigger] place(digits, i)
                == 0 by {
                assert(char_place(figures, i) == 0);
            }
        }
    } else if writes(text, number as int) {
        assert forall|k: int| 0 <= k < figures.len() implies numerals::is_digit(
            #[trigger] figures[k],
        ) by {
            assert(figure(figures[k]));
        }
    }
}

/// The text of a range writes its start, a dash, and its stop: the first dash parts the two, and a
/// text without one, or with something else than a number on either side of it, is refused.
pub proof fn law_range_is_written(text: Seq<char>, start: u32, stop: u32)
    ensures
        (forall|d: int| 0 <= d < text.len() ==> #[trigger] text[d] != '-') <==> (
        message::range_bounds(text) == Err::<(u32, u32), IsbnRangeError>(
            IsbnRangeError::NoDashInRange,
        )),
        message::range_bounds(text) == Ok::<(u32, u32), IsbnRangeError>((start, stop)) <==> (
        exists|d: int|
            0 <= d < text.len() && #[trigger] text[d] == '-' && writes(text.take(d), start as int)
                && writes(text.skip(d + 1), stop as int)),
        message::range_bounds(text) matches Err(e) ==> e == IsbnRangeError::NoDashInRange || e
            == IsbnRangeError::BadRange,
{
    if text.contains('-') {
        text.index_of_first_ensures('-');
        let dash = text.index_of_first('-').unwrap();
        law_number_is_written(text.take(dash), start);
        law_number_is_written(text.skip(dash + 1), stop);
        assert(text[dash] == '-');
        assert forall|d: int|
            0 <= d < text.len() && #[trigger] text[d] == '-' && writes(
                text.take(d),
                start as int,
            ) implies d == dash by {
            lemma_no_dash_written(text.take(d), start as int);
            if dash < d {
                assert(text.take(d)[dash] == '-');
            }
        }
    } else {
        assert forall|d: int| 0 <= d < text.len() implies #[trigger] text[d] != '-' by {
            assert(text.contains(text[d]));
        }
    }
}

proof fn lemma_no_dash_written(text: Seq<char>, number: int)
    requires
        writes(text, number),
    ensures
        forall|k: int| 0 <= k < text.len() ==> #[trigger] text[k] != '-',
{
    assert forall|k: int| 0 <= k < text.len() implies #[trigger] text[k] != '-' by {
        if text[0] == '+' {
            if k > 0 {
                assert(figure(text.skip(1)[k - 1]));
            }
        } else {
            assert(figure(text[k]));
        }
    }
}

/// The text of a length is one figure: from one to seven it is that many digits, zero stands for a
/// range that is not in use, and eight and nine are too many. Every other text is no length.
pub proof fn law_length_is_written(text: Seq<char>)
    ensures
        text.len() == 1 && 49 <= text[0] as int <= 55 ==> message::part_length(text) == Ok::<
            Option<usize>,
            IsbnRangeError,
        >(Some((text[0] as int - 48) as usize)),
        text.len() == 1 && text[0] == '0' ==> message::part_length(text) == Ok::<
            Option<usize>,
            IsbnRangeError,
        >(None),
        text.len() == 1 && (text[0] == '8' || text[0] == '9') ==> message::part_length(text)
            == Err::<Option<usize>, IsbnRangeError>(IsbnRangeError::LengthTooLarge),
        text.len() != 1 || !figure(text[0]) ==> message::part_length(text) == Err::<
            Option<usize>,
            IsbnRangeError,
        >(IsbnRangeError::BadLengthString),
{
}

/// The code of the last figures of a text, each in the four bits of its place.
pub open spec fn code(text: Seq<char>) -> int {
    char_place(text, 0) + 0x10 * char_place(text, 1) + 0x100 * char_place(text, 2) + 0x1000
        * char_place(text, 3) + 0x1_0000 * char_place(text, 4) + 0x10_0000 * char_place(text, 5)
        + 0x100_0000 * char_place(text, 6) + 0x1000_0000 * char_place(text, 7)
}

proof fn lemma_code(text: Seq<char>)
    requires
        forall|k: int| 0 <= k < text.len() ==> figure(#[trigger] text[k]),
    ensures
        numerals::all_digits(text),
        numerals::bcd32(numerals::digits_of(text)) == code(text),
        text.len() <= 8 ==> numerals::bcd(numerals::digits_of(text)) == code(text),
        text.len() <= 3 ==> code(text) <= 0x999,
{
    lemma_char_places(text);
    law_bcd_by_places(numerals::digits_of(text));
    assert forall|k: int| 0 <= k < text.len() implies numerals::is_digit(#[trigger] text[k]) by {
        assert(figure(text[k]));
    }
    assert(0 <= char_place(text, 0) <= 9 && 0 <= char_place(text, 1) <= 9 && 0 <= char_place(
        text,
        2,
    ) <= 9);
}

/// The prefix of an `EAN.UCC` element is up to three figures, which give its key each in the four
/// bits of its place. Another character among the first three is refused as such, and a fourth
/// character as one too many.
pub proof fn law_ean_ucc_prefix_is_written(prefix: Seq<char>)
    ensures
        (exists|k: int| 0 <= k < 3 && k < prefix.len() && !figure(#[trigger] prefix[k]))
            ==> message::ean_ucc_key(prefix) == Err::<u16, IsbnRangeError>(
            IsbnRangeError::InvalidPrefixChar,
        ),
        (forall|k: int| 0 <= k < 3 && k < prefix.len() ==> figure(#[trigger] prefix[k]))
            && prefix.len() > 3 ==> message::ean_ucc_key(prefix) == Err::<u16, IsbnRangeError>(
            IsbnRangeError::PrefixTooLong,
        ),
        (forall|k: int| 0 <= k < prefix.len() ==> figure(#[trigger] prefix[k])) && prefix.len() <= 3
            ==> (message::ean_ucc_key(prefix) matches Ok(key) && key as int == char_place(prefix, 0)
            + 0x10 * char_place(prefix, 1) + 0x100 * char_place(prefix, 2)),
{
    let head = message::first(prefix, 3);
    lemma_head(prefix);
    if forall|k: int| 0 <= k < prefix.len() ==> figure(#[trigger] prefix[k]) {
        lemma_code(prefix);
        assert(prefix.len() <= 3 ==> head =~= prefix);
    }
}

proof fn lemma_head(prefix: Seq<char>)
    ensures
        numerals::all_digits(message::first(prefix, 3)) <==> (forall|k: int|
            0 <= k < 3 && k < prefix.len() ==> figure(#[trigger] prefix[k])),
{
    let head = message::first(prefix, 3);
    if numerals::all_digits(head) {
        assert forall|k: int| 0 <= k < 3 && k < prefix.len() implies figure(
            #[trigger] prefix[k],
        ) by {
            assert(numerals::is_digit(head[k]));
        }
    }
    if forall|k: int| 0 <= k < 3 && k < prefix.len() ==> figure(#[trigger] prefix[k]) {
        assert forall|k: int| 0 <= k < head.len() implies numerals::is_digit(
            #[trigger] head[k],
        ) by {
            assert(figure(prefix[k]));
        }
    }
}

/// The prefix of a `Group` element is three figures, a dash, and the figures of the group: the
/// first three give one half of its key and those behind the dash the other, each in the four bits
/// of its place. Another character in place of a figure is refused as such, and in place of the
/// dash as one too many.
pub proof fn law_group_prefix_is_written(prefix: Seq<char>)
    ensures
        (exists|k: int| 0 <= k < 3 && k < prefix.len() && !figure(#[trigger] prefix[k]))
            ==> message::group_key(prefix) == Err::<(u16, u32), IsbnRangeError>(
            IsbnRangeError::InvalidPrefixChar,
        ),
        (forall|k: int| 0 <= k < 3 && k < prefix.len() ==> figure(#[trigger] prefix[k]))
            && prefix.len() > 3 && prefix[3] != '-' ==> message::group_key(prefix) == Err::<
            (u16, u32),
            IsbnRangeError,
        >(IsbnRangeError::PrefixTooLong),
        prefix.len() > 3 && prefix[3] == '-' && (exists|k: int|
            4 <= k < prefix.len() && !figure(#[trigger] prefix[k])) ==> message::group_key(prefix)
            == Err::<(u16, u32), IsbnRangeError>(IsbnRangeError::InvalidPrefixChar),
        prefix.len() > 3 && prefix[3] == '-' && (forall|k: int|
            0 <= k < prefix.len() && k != 3 ==> figure(#[trigger] prefix[k])) ==> (
        message::group_key(prefix) matches Ok(key) && key.0 as int == code(prefix.take(3))
            && key.1 as int == code(prefix.skip(4))),
        prefix.len() <= 3 && (forall|k: int|
            0 <= k < prefix.len() ==> figure(#[trigger] prefix[k])) ==> (message::group_key(
            prefix,
        ) matches Ok(key) && key.0 as int == code(prefix) && key.1 == 0),
{
    let head = message::first(prefix, 3);
    let tail = prefix.skip(message::first(prefix, 4).len() as int);
    lemma_head(prefix);
    if forall|k: int| 0 <= k < 3 && k < prefix.len() ==> figure(#[trigger] prefix[k]) {
        assert forall|k: int| 0 <= k < head.len() implies figure(#[trigger] head[k]) by {
            assert(figure(prefix[k]));
        }
        lemma_code(head);
        assert(prefix.len() <= 3 ==> head =~= prefix);
        if prefix.len() > 3 {
            if forall|k: int|
                0 <= k < prefix.len() && k != 3 ==> figure(#[trigger] prefix[k]) {
                assert forall|k: int| 0 <= k < tail.len() implies figure(#[trigger] tail[k]) by {
                    assert(figure(prefix[k + 4]));
                }
                lemma_code(tail);
            }
            if exists|k: int| 4 <= k < prefix.len() && !figure(#[trigger] prefix[k]) {
                let k = choose|k: int| 4 <= k < prefix.len() && !figure(#[trigger] prefix[k]);
                assert(tail[k - 4] == prefix[k]);
                assert(!numerals::is_digit(tail[k - 4]));
            }
        } else {
            assert(tail =~= seq![]);
            lemma_code(tail);
        }
    }
}

} // verus!
