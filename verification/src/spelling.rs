//! Which texts are read as ISBNs, in terms of their characters.

use crate::error::IsbnRangeError;
use crate::isbn::{self, Isbn, Isbn10, Isbn13, IsbnError};
use crate::places;
use vstd::prelude::*;
use vstd::std_specs::convert::FromSpec;

verus! {

/// The sum of ten digits, weighted from ten down to one, is a multiple of eleven.
pub open spec fn checks10(d: Seq<u8>) -> bool {
    (10 * d[0] + 9 * d[1] + 8 * d[2] + 7 * d[3] + 6 * d[4] + 5 * d[5] + 4 * d[6] + 3 * d[7] + 2
        * d[8] + d[9]) % 11 == 0
}

/// The sum of thirteen digits, weighted one and three in turn, is a multiple of ten.
pub open spec fn checks13(d: Seq<u8>) -> bool {
    (d[0] + 3 * d[1] + d[2] + 3 * d[3] + d[4] + 3 * d[5] + d[6] + 3 * d[7] + d[8] + 3 * d[9] + d[10]
        + 3 * d[11] + d[12]) % 10 == 0
}

/// Digits are those of an ISBN-10 where there are ten, of which the first nine are at most nine and
/// the last at most ten, and they check; and those of an ISBN-13 where there are thirteen, all at
/// most nine, and they check.
pub proof fn law_digits_of_an_isbn(d: Seq<u8>)
    ensures
        isbn::digits_fit10(d) <==> d.len() == 10 && d[9] <= 10 && (forall|i: int|
            0 <= i < 9 ==> #[trigger] d[i] <= 9),
        isbn::digits_fit13(d) <==> d.len() == 13 && (forall|i: int|
            0 <= i < 13 ==> #[trigger] d[i] <= 9),
        isbn::is_isbn10(d) <==> d.len() == 10 && d[9] <= 10 && (forall|i: int|
            0 <= i < 9 ==> #[trigger] d[i] <= 9) && checks10(d),
        isbn::is_isbn13(d) <==> d.len() == 13 && (forall|i: int|
            0 <= i < 13 ==> #[trigger] d[i] <= 9) && checks13(d),
{
    if d.len() == 10 {
        assert forall|i: int| 0 <= i < 9 implies d.drop_last()[i] == #[trigger] d[i] by {}
        if isbn::digits_fit10(d) {
            assert forall|i: int| 0 <= i < 9 implies #[trigger] d[i] <= 9 by {
                assert(d.drop_last()[i] <= 9);
            }
        }
    }
}

/// A single wrong digit is noticed: of two rows of digits that differ in one place only, at most one
/// is an ISBN-10, and at most one is an ISBN-13.
pub proof fn law_wrong_digit_is_noticed(d: Seq<u8>, at: int, digit: u8)
    requires
        0 <= at < d.len(),
        digit != d[at],
    ensures
        !(isbn::is_isbn10(d) && isbn::is_isbn10(d.update(at, digit))),
        !(isbn::is_isbn13(d) && isbn::is_isbn13(d.update(at, digit))),
{
    if isbn::is_isbn10(d) && isbn::is_isbn10(d.update(at, digit)) {
        lemma_noticed10(d, at, digit);
    }
    if isbn::is_isbn13(d) && isbn::is_isbn13(d.update(at, digit)) {
        lemma_noticed13(d, at, digit);
    }
}

proof fn lemma_multiples(one: int, change: int, m: int)
    requires
        m > 0,
        one % m == 0,
        (one + change) % m == 0,
    ensures
        change % m == 0,
{
    assert(change % m == 0) by (nonlinear_arith)
        requires
            m > 0,
            one % m == 0,
            (one + change) % m == 0,
    {
        vstd::arithmetic::div_mod::lemma_sub_mod_noop(one + change, one, m);
    }
}

proof fn lemma_noticed10(d: Seq<u8>, at: int, digit: u8)
    requires
        0 <= at < d.len(),
        digit != d[at],
        isbn::is_isbn10(d),
    ensures
        !isbn::is_isbn10(d.update(at, digit)),
{
    let other = d.update(at, digit);
    if isbn::is_isbn10(other) {
        assert(d[at] <= 10) by {
            law_digits_of_an_isbn(d);
        }
        assert(other[at] <= 10) by {
            law_digits_of_an_isbn(other);
        }
        let one = isbn::weighted_sum10(d);
        assert(isbn::weighted_sum10(other) == one + (10 - at) * (digit - d[at])) by {
            lemma_difference10(d, at, digit);
        }
        lemma_multiples(one, (10 - at) * (digit - d[at]), 11);
        lemma_no_multiple_of_eleven(10 - at, digit - d[at]);
    }
}

proof fn lemma_noticed13(d: Seq<u8>, at: int, digit: u8)
    requires
        0 <= at < d.len(),
        digit != d[at],
        isbn::is_isbn13(d),
    ensures
        !isbn::is_isbn13(d.update(at, digit)),
{
    let other = d.update(at, digit);
    if isbn::is_isbn13(other) {
        assert(d[at] <= 9) by {
            law_digits_of_an_isbn(d);
        }
        assert(other[at] <= 9) by {
            law_digits_of_an_isbn(other);
        }
        let one = isbn::weighted_sum13(d);
        let change = (if at % 2 == 0 {
            1int
        } else {
            3
        }) * (digit - d[at]);
        assert(isbn::weighted_sum13(other) == one + change) by {
            lemma_difference13(d, at, digit);
        }
        lemma_multiples(one, change, 10);
        assert(change % 10 != 0);
    }
}

proof fn lemma_difference10(d: Seq<u8>, at: int, digit: u8)
    requires
        d.len() == 10,
        0 <= at < 10,
    ensures
        isbn::weighted_sum10(d.update(at, digit)) == isbn::weighted_sum10(d) + (10 - at) * (digit
            - d[at]),
{
    let other = d.update(at, digit);
    let change = digit - d[at];
    if at == 0 {
        assert((10 - at) * change == 10 * change);
    }
    if at == 1 {
        assert((10 - at) * change == 9 * change);
    }
    if at == 2 {
        assert((10 - at) * change == 8 * change);
    }
    if at == 3 {
        assert((10 - at) * change == 7 * change);
    }
    if at == 4 {
        assert((10 - at) * change == 6 * change);
    }
    if at == 5 {
        assert((10 - at) * change == 5 * change);
    }
    if at == 6 {
        assert((10 - at) * change == 4 * change);
    }
    if at == 7 {
        assert((10 - at) * change == 3 * change);
    }
    if at == 8 {
        assert((10 - at) * change == 2 * change);
    }
    if at == 9 {
        assert((10 - at) * change == 1 * change);
    }
}

proof fn lemma_difference13(d: Seq<u8>, at: int, digit: u8)
    requires
        d.len() == 13,
        0 <= at < 13,
    ensures
        isbn::weighted_sum13(d.update(at, digit)) == isbn::weighted_sum13(d) + (if at % 2 == 0 {
            1int
        } else {
            3
        }) * (digit - d[at]),
{
    let other = d.update(at, digit);
    let change = digit - d[at];
    if at == 0 {
        assert(other[0] == digit);
    }
    if at == 1 {
        assert(other[1] == digit);
    }
    if at == 2 {
        assert(other[2] == digit);
    }
    if at == 3 {
        assert(other[3] == digit);
    }
    if at == 4 {
        assert(other[4] == digit);
    }
    if at == 5 {
        assert(other[5] == digit);
    }
    if at == 6 {
        assert(other[6] == digit);
    }
    if at == 7 {
        assert(other[7] == digit);
    }
    if at == 8 {
        assert(other[8] == digit);
    }
    if at == 9 {
        assert(other[9] == digit);
    }
    if at == 10 {
        assert(other[10] == digit);
    }
    if at == 11 {
        assert(other[11] == digit);
    }
    if at == 12 {
        assert(other[12] == digit);
    }
}

proof fn lemma_no_multiple_of_eleven(a: int, b: int)
    requires
        1 <= a <= 10,
        -10 <= b <= 10,
        b != 0,
    ensures
        (a * b) % 11 != 0,
{
    assert(a == 1 || a == 2 || a == 3 || a == 4 || a == 5 || a == 6 || a == 7 || a == 8 || a == 9
        || a == 10);
}

/// What a character of an ISBN counts.
pub open spec fn counts(c: char) -> u8 {
    if c == 'X' {
        10
    } else {
        (c as int - 48) as u8
    }
}

/// The character at `k` may stand there: a figure among the first thirteen, with no `X` in the tenth
/// place before it, or an `X` in the tenth place.
pub open spec fn may_stand(text: Seq<char>, k: int) -> bool {
    ||| k == 9 && text[k] == 'X'
    ||| k < 13 && places::figure(text[k]) && !(k > 9 && text[9] == 'X')
}

/// What the characters count, one by one.
pub open spec fn counted(text: Seq<char>) -> Seq<u8> {
    Seq::new(text.len(), |i: int| counts(text[i]))
}

/// A hyphen anywhere in a text changes nothing of what it is read as.
pub proof fn law_hyphen_does_not_matter(left: Seq<char>, right: Seq<char>)
    ensures
        isbn::isbn_in(left + seq!['-'] + right) == isbn::isbn_in(left + right),
{
    lemma_hyphen(left, right, seq![]);
}

proof fn lemma_hyphen(left: Seq<char>, right: Seq<char>, read: Seq<u8>)
    ensures
        isbn::digits_in(left + seq!['-'] + right, read) == isbn::digits_in(left + right, read),
    decreases left.len(),
{
    let long = left + seq!['-'] + right;
    let short = left + right;
    if left.len() == 0 {
        assert(long.skip(1) =~= right);
        assert(short =~= right);
    } else {
        let others = left.skip(1);
        assert(long.skip(1) =~= others + seq!['-'] + right);
        assert(short.skip(1) =~= others + right);
        assert(long[0] == left[0] && short[0] == left[0]);
        lemma_hyphen(others, right, read);
        lemma_hyphen(others, right, read.push(10));
        lemma_hyphen(others, right, read.push((left[0] as u32 - 48) as u8));
    }
}

proof fn lemma_scan(text: Seq<char>, k: int)
    requires
        0 <= k <= text.len(),
        forall|m: int| 0 <= m < k ==> #[trigger] may_stand(text, m),
    ensures
        isbn::digits_in(text, seq![]) == isbn::digits_in(text.skip(k), counted(text.take(k))),
    decreases k,
{
    if k == 0 {
        assert(text.skip(0) =~= text);
        assert(counted(text.take(0)) =~= seq![]);
    } else {
        lemma_scan(text, k - 1);
        let rest = text.skip(k - 1);
        let read = counted(text.take(k - 1));
        assert(may_stand(text, k - 1));
        assert(rest[0] == text[k - 1]);
        assert(rest.skip(1) =~= text.skip(k));
        assert(read.push(counts(text[k - 1])) =~= counted(text.take(k)));
        if k - 1 > 9 {
            assert(may_stand(text, 9));
            assert(read[9] == counts(text[9]));
        }
    }
}

/// A text without hyphens is read as an ISBN where each character may stand in its place, there are
/// ten or thirteen, and what they count checks. The first character that may not stand in its place
/// is too much where it is a figure behind thirteen, and wrong otherwise.
pub proof fn law_isbn_is_spelled(text: Seq<char>, k: int)
    requires
        forall|m: int| 0 <= m < text.len() ==> #[trigger] text[m] != '-',
    ensures
        (forall|m: int| 0 <= m < text.len() ==> #[trigger] may_stand(text, m))
            ==> isbn::isbn_in(text) == (if text.len() != 10 && text.len() != 13 {
            Err(IsbnError::InvalidLength)
        } else if (text.len() == 10 && checks10(counted(text))) || (text.len() == 13 && text[9]
            != 'X' && checks13(counted(text))) {
            Ok(counted(text))
        } else {
            Err(IsbnError::InvalidChecksum)
        }),
        0 <= k < text.len() && !may_stand(text, k) && (forall|m: int|
            0 <= m < k ==> #[trigger] may_stand(text, m)) ==> isbn::isbn_in(text)
            == Err::<Seq<u8>, IsbnError>(
            if places::figure(text[k]) && !(k > 9 && text[9] == 'X') {
                IsbnError::InvalidLength
            } else {
                IsbnError::InvalidDigit
            },
        ),
{
    if forall|m: int| 0 <= m < text.len() ==> #[trigger] may_stand(text, m) {
        lemma_scan(text, text.len() as int);
        assert(text.take(text.len() as int) =~= text);
        assert(text.skip(text.len() as int) =~= seq![]);
        let d = counted(text);
        law_digits_of_an_isbn(d);
        if text.len() == 10 || text.len() == 13 {
            assert forall|i: int| 0 <= i < text.len() && i != 9 implies #[trigger] d[i] <= 9 by {
                assert(may_stand(text, i));
            }
            assert(may_stand(text, 9));
            if text.len() == 13 {
                assert(may_stand(text, 10));
            }
        }
    }
    if 0 <= k < text.len() && !may_stand(text, k) && (forall|m: int|
        0 <= m < k ==> #[trigger] may_stand(text, m)) {
        lemma_scan(text, k);
        let read = counted(text.take(k));
        assert(text.skip(k)[0] == text[k]);
        assert(text[k] != '-');
        if k > 9 {
            assert(read[9] == counts(text[9]));
            assert(may_stand(text, 9));
        }
    }
}

/// The digits of an ISBN are those it was made of, and errors of the XML reader and of files are
/// carried as they are.
pub proof fn law_values_are_kept(
    short: Isbn10,
    long: Isbn13,
    xml: quick_xml::Error,
    file: std::io::Error,
)
    ensures
        Isbn::_10(short).digits() == short@,
        Isbn::_13(long).digits() == long@,
        <IsbnRangeError as FromSpec<quick_xml::Error>>::from_spec(xml) == IsbnRangeError::Xml(xml),
        <IsbnRangeError as FromSpec<std::io::Error>>::from_spec(file) == IsbnRangeError::FileError(
            file,
        ),
        <IsbnRangeError as FromSpec<quick_xml::Error>>::obeys_from_spec(),
        <IsbnRangeError as FromSpec<std::io::Error>>::obeys_from_spec(),
{
}

} // verus!
