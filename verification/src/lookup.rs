//! What the ranges say of an ISBN, in terms of its digits and of their rules.

use crate::hyphenated;
use crate::isbn::{Isbn10, Isbn13, IsbnError, IsbnObject};
use crate::message::Range;
use crate::numerals;
use crate::places;
use crate::range::{self, RangeModel};
use crate::segment;
use vstd::prelude::*;

verus! {

/// The rule at `i` is the first whose start is at most the number and whose stop is above it.
pub open spec fn first_rule(ranges: Seq<Range>, number: int, i: int) -> bool {
    &&& 0 <= i < ranges.len()
    &&& ranges[i].0.0 <= number < ranges[i].0.1
    &&& forall|k: int|
        0 <= k < i ==> !((#[trigger] ranges[k]).0.0 <= number && number < ranges[k].0.1)
}

/// The number lies in none of the rules.
pub open spec fn no_rule(ranges: Seq<Range>, number: int) -> bool {
    forall|k: int|
        0 <= k < ranges.len() ==> !((#[trigger] ranges[k]).0.0 <= number && number < ranges[k].0.1)
}

/// The first rule in which a number lies decides, whatever comes behind it: it gives its length,
/// and where it has none the number is refused as undefined. A number that lies in no rule is
/// refused as of no group.
pub proof fn law_first_rule_decides(ranges: Seq<Range>, number: int, i: int)
    ensures
        first_rule(ranges, number, i) ==> segment::length_in(ranges, number) == (
        match ranges[i].1 {
            Some(length) => Ok::<usize, IsbnError>(length),
            None => Err(IsbnError::UndefinedRange),
        }),
        no_rule(ranges, number) ==> segment::length_in(ranges, number) == Err::<usize, IsbnError>(
            IsbnError::InvalidGroup,
        ),
        no_rule(ranges, number) || exists|k: int| first_rule(ranges, number, k),
    decreases ranges.len(),
{
    if ranges.len() > 0 {
        let others = ranges.skip(1);
        law_first_rule_decides(others, number, i - 1);
        assert forall|k: int| 0 <= k < others.len() implies #[trigger] others[k] == ranges[k
            + 1] by {}
        if ranges[0].0.0 <= number && number < ranges[0].0.1 {
            assert(first_rule(ranges, number, 0));
            if first_rule(ranges, number, i) && i > 0 {
                assert(!(ranges[0].0.0 <= number && number < ranges[0].0.1));
            }
        } else {
            if first_rule(ranges, number, i) {
                assert forall|k: int| 0 <= k < i - 1 implies !((#[trigger] others[k]).0.0 <= number
                    && number < others[k].0.1) by {
                    assert(others[k] == ranges[k + 1]);
                }
                assert(first_rule(others, number, i - 1));
            }
            if no_rule(ranges, number) {
                assert forall|k: int| 0 <= k < others.len() implies !((#[trigger] others[k]).0.0
                    <= number && number < others[k].0.1) by {
                    assert(others[k] == ranges[k + 1]);
                }
            }
            if no_rule(others, number) {
                assert forall|k: int| 0 <= k < ranges.len() implies !((#[trigger] ranges[k]).0.0
                    <= number && number < ranges[k].0.1) by {
                    if k > 0 {
                        assert(others[k - 1] == ranges[k]);
                    }
                }
            } else {
                let k = choose|k: int| first_rule(others, number, k);
                assert forall|m: int| 0 <= m < k + 1 implies !((#[trigger] ranges[m]).0.0 <= number
                    && number < ranges[m].0.1) by {
                    if m > 0 {
                        assert(others[m - 1] == ranges[m]);
                    }
                }
                assert(first_rule(ranges, number, k + 1));
            }
        }
    }
}

/// Three digits, each in the four bits of its place.
pub open spec fn prefix_code(prefix: Seq<u8>) -> u16 {
    (0x100 * prefix[0] + 0x10 * prefix[1] + prefix[2]) as u16
}

/// The first `length` digits, up to seven, each in the four bits of its place.
pub open spec fn group_code(body: Seq<u8>, length: int) -> u32 {
    (places::place(body.take(length), 0) + 0x10 * places::place(body.take(length), 1) + 0x100
        * places::place(body.take(length), 2) + 0x1000 * places::place(body.take(length), 3)
        + 0x1_0000 * places::place(body.take(length), 4) + 0x10_0000 * places::place(
        body.take(length),
        5,
    ) + 0x100_0000 * places::place(body.take(length), 6)) as u32
}

/// Every digit is at most nine.
pub open spec fn figures(digits: Seq<u8>) -> bool {
    forall|i: int| 0 <= i < digits.len() ==> #[trigger] digits[i] <= 9
}

proof fn lemma_keys(prefix: Seq<u8>, body: Seq<u8>, length: int)
    requires
        prefix.len() == 3,
        figures(prefix),
        body.len() == 9,
        figures(body),
        1 <= length <= 7,
    ensures
        numerals::bcd(prefix) as u16 == prefix_code(prefix),
        numerals::bcd32(body.take(length)) == group_code(body, length),
{
    let group = body.take(length);
    assert forall|i: int| 0 <= i < group.len() implies #[trigger] group[i] <= 9 by {
        assert(body[i] <= 9);
    }
    places::law_bcd_by_places(group);
    places::law_bcd_by_places(prefix);
    assert(places::place(prefix, 0) == prefix[2]);
    assert(places::place(prefix, 1) == prefix[1]);
    assert(places::place(prefix, 2) == prefix[0]);
    assert(places::place(group, 7) == 0);
    assert(prefix[0] <= 9 && prefix[1] <= 9 && prefix[2] <= 9);
}

/// The GS1 prefix, the registration group and the registrant of an ISBN are found in turn. The
/// agency of the GS1 prefix has rules, and the first in which the first seven digits of the body lie
/// says how many digits the registration group has. The entry of that GS1 prefix and those digits
/// has rules, and the first in which the seven digits behind the group lie says how many digits the
/// registrant has. That entry also gives the name.
pub proof fn law_found_by_rules<T: IsbnObject>(
    range: RangeModel,
    isbn: T,
    i: int,
    group: int,
    j: int,
    registrant: int,
)
    requires
        isbn.gs1_prefix().len() == 3,
        figures(isbn.gs1_prefix()),
        isbn.body().len() == 9,
        figures(isbn.body()),
        1 <= group <= 7,
        ({
            let prefix = prefix_code(isbn.gs1_prefix());
            let agency = range.ean_ucc_group[prefix];
            let key = (prefix, group_code(isbn.body(), group));
            let entry = range.registration_group[key];
            &&& range.ean_ucc_group.contains_key(prefix)
            &&& first_rule(agency.ranges, places::seven_from(isbn.body(), 0), i)
            &&& agency.ranges[i].1 == Some(group as usize)
            &&& range.registration_group.contains_key(key)
            &&& first_rule(entry.ranges, places::seven_from(isbn.body(), group), j)
            &&& entry.ranges[j].1 == Some(registrant as usize)
            &&& 0 <= registrant <= usize::MAX
        }),
    ensures
        range::hyphenation(range, isbn) == Ok::<Seq<char>, IsbnError>(
            isbn.hyphenated(group, group + registrant),
        ),
        range::group_name(range, isbn) == Ok::<Seq<char>, IsbnError>(
            range.registration_group[(
                prefix_code(isbn.gs1_prefix()),
                group_code(isbn.body(), group),
            )].name,
        ),
{
    let body = isbn.body();
    let prefix = prefix_code(isbn.gs1_prefix());
    let key = (prefix, group_code(body, group));
    lemma_keys(isbn.gs1_prefix(), body, group);
    places::law_segment_by_places(body, 0);
    places::law_segment_by_places(body, group);
    law_first_rule_decides(range.ean_ucc_group[prefix].ranges, places::seven_from(body, 0), i);
    law_first_rule_decides(
        range.registration_group[key].ranges,
        places::seven_from(body, group),
        j,
    );
}

/// An ISBN is refused as undefined where the first rule that it lies in, of the GS1 prefix or of the
/// registration group, is not in use. It is refused as of no group where the GS1 prefix or the
/// registration group has no entry, or the entry has no rule in which the ISBN lies.
pub proof fn law_refused_by_rules<T: IsbnObject>(
    range: RangeModel,
    isbn: T,
    i: int,
    group: int,
    j: int,
)
    requires
        isbn.gs1_prefix().len() == 3,
        figures(isbn.gs1_prefix()),
        isbn.body().len() == 9,
        figures(isbn.body()),
        1 <= group <= 7,
    ensures
        ({
            let prefix = prefix_code(isbn.gs1_prefix());
            let agency = range.ean_ucc_group[prefix];
            let number = places::seven_from(isbn.body(), 0);
            let key = (prefix, group_code(isbn.body(), group));
            let entry = range.registration_group[key];
            let behind = places::seven_from(isbn.body(), group);
            let known = range.ean_ucc_group.contains_key(prefix);
            let grouped = known && first_rule(agency.ranges, number, i) && agency.ranges[i].1
                == Some(group as usize);
            let entered = grouped && range.registration_group.contains_key(key);
            let no_group = !known || no_rule(agency.ranges, number) || (grouped
                && !range.registration_group.contains_key(key)) || (entered && no_rule(
                entry.ranges,
                behind,
            ));
            let undefined = (known && first_rule(agency.ranges, number, i)
                && agency.ranges[i].1 is None) || (entered && first_rule(entry.ranges, behind, j)
                && entry.ranges[j].1 is None);
            &&& no_group ==> range::hyphenation(range, isbn) == Err::<Seq<char>, IsbnError>(
                IsbnError::InvalidGroup,
            ) && range::group_name(range, isbn) == Err::<Seq<char>, IsbnError>(
                IsbnError::InvalidGroup,
            )
            &&& undefined ==> range::hyphenation(range, isbn) == Err::<Seq<char>, IsbnError>(
                IsbnError::UndefinedRange,
            ) && range::group_name(range, isbn) == Err::<Seq<char>, IsbnError>(
                IsbnError::UndefinedRange,
            )
        }),
{
    let body = isbn.body();
    let prefix = prefix_code(isbn.gs1_prefix());
    let key = (prefix, group_code(body, group));
    lemma_keys(isbn.gs1_prefix(), body, group);
    places::law_segment_by_places(body, 0);
    places::law_segment_by_places(body, group);
    law_first_rule_decides(range.ean_ucc_group[prefix].ranges, places::seven_from(body, 0), i);
    law_first_rule_decides(
        range.registration_group[key].ranges,
        places::seven_from(body, group),
        j,
    );
}

/// How many of the two hyphens stand before the digit at `k` or further on the left, where the one
/// stands before the digit at `first` and the other before that at `second`.
pub open spec fn hyphens_up_to(k: int, first: int, second: int) -> int {
    (if 0 <= first <= k {
        1int
    } else {
        0
    }) + (if 0 <= second <= k && second != first {
        1int
    } else {
        0
    })
}

/// The text holds the digits from `from` on, in order, with a hyphen before the one at `first` and
/// the one at `second`, and nothing between them otherwise.
pub open spec fn holds_digits(
    text: Seq<char>,
    from: int,
    digits: Seq<u8>,
    first: int,
    second: int,
) -> bool {
    forall|k: int|
        0 <= k < digits.len() ==> {
            let at = from + k + hyphens_up_to(k, first, second);
            &&& 48 + (#[trigger] digits[k]) == text[at] as int
            &&& k == first || k == second ==> text[at - 1] == '-'
        }
}

proof fn lemma_marked_places(digits: Seq<u8>, first: int, second: int)
    requires
        figures(digits),
    ensures
        hyphenated::marked(digits, first, second).len() == digits.len() + hyphens_up_to(
            digits.len() - 1,
            first,
            second,
        ),
        holds_digits(hyphenated::marked(digits, first, second), 0, digits, first, second),
    decreases digits.len(),
{
    if digits.len() > 0 {
        let shorter = digits.drop_last();
        let text = hyphenated::marked(digits, first, second);
        let before = hyphenated::marked(shorter, first, second);
        assert forall|i: int| 0 <= i < shorter.len() implies #[trigger] shorter[i] <= 9 by {
            assert(digits[i] <= 9);
        }
        lemma_marked_places(shorter, first, second);
        let last = digits.len() - 1;
        assert(digits[last] <= 9);
        assert forall|k: int| 0 <= k < digits.len() implies {
            let at = k + hyphens_up_to(k, first, second);
            &&& 48 + (#[trigger] digits[k]) == text[at] as int
            &&& k == first || k == second ==> text[at - 1] == '-'
        } by {
            if k < last {
                assert(shorter[k] == digits[k]);
                let at = k + hyphens_up_to(k, first, second);
                assert(at < before.len());
                assert(text[at] == before[at]);
                if k == first || k == second {
                    assert(text[at - 1] == before[at - 1]);
                }
            }
        }
    }
}

/// The character of a check digit is its figure, and `X` for ten.
pub open spec fn shows_check(c: char, check: u8) -> bool {
    if check == 10 {
        c == 'X'
    } else {
        c as int == 48 + check
    }
}

/// The text reads the nine digits of the body from `from` on, with a hyphen before those at `first`
/// and at `second`, then a hyphen and the check digit, and ends.
pub open spec fn reads_body(
    text: Seq<char>,
    from: int,
    body: Seq<u8>,
    check: u8,
    first: int,
    second: int,
) -> bool {
    let end = from + 9 + hyphens_up_to(8, first, second);
    &&& holds_digits(text, from, body, first, second)
    &&& text.len() == end + 2
    &&& text[end] == '-'
    &&& shows_check(text[end + 1], check)
}

proof fn lemma_form(head: Seq<u8>, body: Seq<u8>, check: u8, first: int, second: int)
    requires
        head.len() == 0 || head.len() == 3,
        figures(head),
        body.len() == 9,
        figures(body),
        check <= 10,
    ensures
        ({
            let text = hyphenated::hyphenated_form(head, body, check, first, second);
            let from = if head.len() == 0 {
                0int
            } else {
                4
            };
            &&& reads_body(text, from, body, check, first, second)
            &&& forall|k: int| 0 <= k < head.len() ==> 48 + (#[trigger] head[k]) == text[k] as int
            &&& head.len() > 0 ==> text[3] == '-'
        }),
{
    let text = hyphenated::hyphenated_form(head, body, check, first, second);
    let middle = hyphenated::marked(body, first, second);
    let from = if head.len() == 0 {
        0int
    } else {
        4
    };
    lemma_marked_places(body, first, second);
    assert forall|k: int| 0 <= k < body.len() implies {
        let at = from + k + hyphens_up_to(k, first, second);
        &&& 48 + (#[trigger] body[k]) == text[at] as int
        &&& k == first || k == second ==> text[at - 1] == '-'
    } by {
        let at = k + hyphens_up_to(k, first, second);
        assert(0 <= at < middle.len());
        assert(text[from + at] == middle[at]);
        if k == first || k == second {
            assert(text[from + at - 1] == middle[at - 1]);
        }
    }
    assert forall|k: int| 0 <= k < head.len() implies 48 + (#[trigger] head[k])
        == text[k] as int by {
        assert(head[k] <= 9);
    }
}

/// An ISBN-10 is written as its digits in order, with a hyphen before the body digits at `first` and
/// at `second`, where there are such, and one before the check digit.
pub proof fn law_isbn10_is_written(isbn: Isbn10, first: int, second: int)
    requires
        isbn@.len() == 10,
        figures(isbn@.take(9)),
        isbn@[9] <= 10,
    ensures
        reads_body(isbn.hyphenated(first, second), 0, isbn@.take(9), isbn@[9], first, second),
        isbn.body() == isbn@.take(9),
        isbn.gs1_prefix() == seq![9u8, 7, 8],
{
    lemma_form(seq![], isbn@.take(9), isbn@[9], first, second);
}

/// An ISBN-13 is written as its digits in order, with a hyphen behind the third, one before the body
/// digits at `first` and at `second`, where there are such, and one before the check digit.
pub proof fn law_isbn13_is_written(isbn: Isbn13, first: int, second: int)
    requires
        isbn@.len() == 13,
        figures(isbn@),
    ensures
        reads_body(
            isbn.hyphenated(first, second),
            4,
            isbn@.subrange(3, 12),
            isbn@[12],
            first,
            second,
        ),
        forall|k: int|
            0 <= k < 3 ==> 48 + (#[trigger] isbn@[k]) == isbn.hyphenated(first, second)[k] as int,
        isbn.hyphenated(first, second)[3] == '-',
        isbn.body() == isbn@.subrange(3, 12),
        isbn.gs1_prefix() == isbn@.take(3),
{
    let head = isbn@.take(3);
    let body = isbn@.subrange(3, 12);
    lemma_isbn13_figures(isbn@);
    lemma_form(head, body, isbn@[12], first, second);
    assert forall|k: int| 0 <= k < 3 implies 48 + (#[trigger] isbn@[k]) == isbn.hyphenated(
        first,
        second,
    )[k] as int by {
        assert(head[k] == isbn@[k]);
    }
}

proof fn lemma_isbn13_figures(digits: Seq<u8>)
    requires
        digits.len() == 13,
        figures(digits),
    ensures
        figures(digits.take(3)),
        figures(digits.subrange(3, 12)),
        digits[12] <= 9,
{
    assert forall|i: int| 0 <= i < 3 implies #[trigger] digits.take(3)[i] <= 9 by {
        assert(digits[i] <= 9);
    }
    assert forall|i: int| 0 <= i < 9 implies #[trigger] digits.subrange(3, 12)[i] <= 9 by {
        assert(digits[i + 3] <= 9);
    }
}

/// The ranges split a body under a GS1 prefix into a registration group and a registrant of these
/// lengths: each is the length of the first rule that takes in the seven digits from where the part
/// starts.
pub open spec fn split(
    range: RangeModel,
    gs1_prefix: Seq<u8>,
    body: Seq<u8>,
    group: int,
    registrant: int,
) -> bool {
    let prefix = prefix_code(gs1_prefix);
    let key = (prefix, group_code(body, group));
    &&& 1 <= group <= 7
    &&& 1 <= registrant <= 7
    &&& range.ean_ucc_group.contains_key(prefix)
    &&& exists|i: int| #[trigger]
        first_rule(range.ean_ucc_group[prefix].ranges, places::seven_from(body, 0), i)
            && range.ean_ucc_group[prefix].ranges[i].1 == Some(group as usize)
    &&& range.registration_group.contains_key(key)
    &&& exists|j: int| #[trigger]
        first_rule(range.registration_group[key].ranges, places::seven_from(body, group), j)
            && range.registration_group[key].ranges[j].1 == Some(registrant as usize)
}

/// An ISBN-10 that the ranges split reads registration group, registrant, publication and check
/// digit with hyphens between, and has the name of the entry of its registration group under `978`.
pub proof fn law_isbn10_by_rules(range: RangeModel, isbn: Isbn10, group: int, registrant: int)
    requires
        isbn@.len() == 10,
        figures(isbn@.take(9)),
        isbn@[9] <= 10,
        split(range, seq![9u8, 7, 8], isbn@.take(9), group, registrant),
    ensures
        range::hyphenation(range, isbn) matches Ok(text) && reads_body(
            text,
            0,
            isbn@.take(9),
            isbn@[9],
            group,
            group + registrant,
        ),
        range::group_name(range, isbn) == Ok::<Seq<char>, IsbnError>(
            range.registration_group[(0x978u16, group_code(isbn@.take(9), group))].name,
        ),
{
    let body = isbn@.take(9);
    let prefix = prefix_code(seq![9u8, 7, 8]);
    let key = (prefix, group_code(body, group));
    let i = choose|i: int| #[trigger]
        first_rule(range.ean_ucc_group[prefix].ranges, places::seven_from(body, 0), i)
            && range.ean_ucc_group[prefix].ranges[i].1 == Some(group as usize);
    let j = choose|j: int| #[trigger]
        first_rule(range.registration_group[key].ranges, places::seven_from(body, group), j)
            && range.registration_group[key].ranges[j].1 == Some(registrant as usize);
    law_isbn10_is_written(isbn, group, group + registrant);
    law_found_by_rules(range, isbn, i, group, j, registrant);
}

/// An ISBN-13 that the ranges split reads GS1 prefix, registration group, registrant, publication and
/// check digit with hyphens between, and has the name of the entry of its registration group under
/// its own GS1 prefix.
pub proof fn law_isbn13_by_rules(range: RangeModel, isbn: Isbn13, group: int, registrant: int)
    requires
        isbn@.len() == 13,
        figures(isbn@),
        split(range, isbn@.take(3), isbn@.subrange(3, 12), group, registrant),
    ensures
        range::hyphenation(range, isbn) matches Ok(text) && reads_body(
            text,
            4,
            isbn@.subrange(3, 12),
            isbn@[12],
            group,
            group + registrant,
        ) && text[0] as int == 48 + isbn@[0] && text[1] as int == 48 + isbn@[1] && text[2] as int
            == 48 + isbn@[2] && text[3] == '-',
        range::group_name(range, isbn) == Ok::<Seq<char>, IsbnError>(
            range.registration_group[(
                prefix_code(isbn@.take(3)),
                group_code(isbn@.subrange(3, 12), group),
            )].name,
        ),
{
    let body = isbn@.subrange(3, 12);
    let prefix = prefix_code(isbn@.take(3));
    let key = (prefix, group_code(body, group));
    let i = choose|i: int| #[trigger]
        first_rule(range.ean_ucc_group[prefix].ranges, places::seven_from(body, 0), i)
            && range.ean_ucc_group[prefix].ranges[i].1 == Some(group as usize);
    let j = choose|j: int| #[trigger]
        first_rule(range.registration_group[key].ranges, places::seven_from(body, group), j)
            && range.registration_group[key].ranges[j].1 == Some(registrant as usize);
    lemma_isbn13_figures(isbn@);
    law_isbn13_is_written(isbn, group, group + registrant);
    law_found_by_rules(range, isbn, i, group, j, registrant);
    assert(isbn@[0] <= 9 && isbn@[1] <= 9 && isbn@[2] <= 9);
}

/// Every rule of the ranges that is in use gives from one to seven digits.
pub open spec fn lengths_up_to_seven(ranges: Seq<Range>) -> bool {
    forall|i: int|
        0 <= i < ranges.len() ==> ((#[trigger] ranges[i]).1 matches Some(n) ==> 1 <= n <= 7)
}

/// An ISBN has a hyphenated form, and a name, only where the ranges split it, and both are those of
/// that split: the name is that of the entry under its GS1 prefix and the digits of its
/// registration group.
pub proof fn law_found_only_by_rules<T: IsbnObject>(range: RangeModel, isbn: T)
    requires
        isbn.gs1_prefix().len() == 3,
        figures(isbn.gs1_prefix()),
        isbn.body().len() == 9,
        figures(isbn.body()),
        forall|key: u16| #[trigger]
            range.ean_ucc_group.contains_key(key) ==> lengths_up_to_seven(
                range.ean_ucc_group[key].ranges,
            ),
        forall|key: (u16, u32)| #[trigger]
            range.registration_group.contains_key(key) ==> lengths_up_to_seven(
                range.registration_group[key].ranges,
            ),
    ensures
        range::group_name(range, isbn) matches Ok(name) ==> exists|group: int, registrant: int|
            #[trigger] split(range, isbn.gs1_prefix(), isbn.body(), group, registrant) && name
                == range.registration_group[(
                prefix_code(isbn.gs1_prefix()),
                group_code(isbn.body(), group),
            )].name,
        range::hyphenation(range, isbn) matches Ok(text) ==> exists|group: int, registrant: int|
            #[trigger] split(range, isbn.gs1_prefix(), isbn.body(), group, registrant) && text
                == isbn.hyphenated(group, group + registrant),
{
    let body = isbn.body();
    let prefix = prefix_code(isbn.gs1_prefix());
    let ranges = range.ean_ucc_group[prefix].ranges;
    let number = places::seven_from(body, 0);
    law_refused_by_rules(range, isbn, 0, 1, 0);
    if range.ean_ucc_group.contains_key(prefix) && !no_rule(ranges, number) {
        law_first_rule_decides(ranges, number, 0);
        let i = choose|i: int| first_rule(ranges, number, i);
        law_refused_by_rules(range, isbn, i, 1, 0);
        if let Some(group) = ranges[i].1 {
            let group = group as int;
            let key = (prefix, group_code(body, group));
            let entry = range.registration_group[key].ranges;
            let behind = places::seven_from(body, group);
            law_refused_by_rules(range, isbn, i, group, 0);
            if range.registration_group.contains_key(key) && !no_rule(entry, behind) {
                law_first_rule_decides(entry, behind, 0);
                let j = choose|j: int| first_rule(entry, behind, j);
                law_refused_by_rules(range, isbn, i, group, j);
                if let Some(registrant) = entry[j].1 {
                    law_found_by_rules(range, isbn, i, group, j, registrant as int);
                    assert(split(range, isbn.gs1_prefix(), body, group, registrant as int));
                }
            }
        }
    }
}

} // verus!
